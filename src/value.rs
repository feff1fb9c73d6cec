//! Scalar values stored at the leaves of a canonical map, and item changes.
use vstd::prelude::*;
use vstd::string::*;

verus! {

/// Bit pattern that every NaN is stored as.
pub const CANONICAL_NAN: u32 = 0x7fc0_0000;

/// Bit pattern of negative zero, stored as positive zero.
pub const NEGATIVE_ZERO: u32 = 0x8000_0000;

/// A scalar leaf value of a record.
///
/// A float is held as the bit pattern of an IEEE-754 single, normalised so
/// that equal floats have equal bits (see `GameDataValue::float_from_bits`).
#[derive(Clone, Debug, PartialEq, Eq)]
pub enum GameDataValue {
    Bool(bool),
    Int(i32),
    Float(u32),
    String(String),
    Next(Option<String>),
}

/// What a `GameDataValue` means to specifications.
pub enum ValueView {
    Bool(bool),
    Int(i32),
    Float(u32),
    Str(Seq<char>),
    Next(Option<Seq<char>>),
}

pub open spec fn opt_str_view(o: Option<String>) -> Option<Seq<char>> {
    match o {
        Option::Some(s) => Option::Some(s@),
        Option::None => Option::None,
    }
}

impl View for GameDataValue {
    type V = ValueView;

    open spec fn view(&self) -> ValueView {
        match self {
            GameDataValue::Bool(b) => ValueView::Bool(*b),
            GameDataValue::Int(i) => ValueView::Int(*i),
            GameDataValue::Float(f) => ValueView::Float(*f),
            GameDataValue::String(s) => ValueView::Str(s@),
            GameDataValue::Next(n) => ValueView::Next(opt_str_view(*n)),
        }
    }
}

/// A float bit pattern in normal form: no negative zero, one NaN.
pub open spec fn float_bits_normal(bits: u32) -> u32 {
    if bits == NEGATIVE_ZERO {
        0
    } else if (bits & 0x7f80_0000u32) == 0x7f80_0000u32 && (bits & 0x007f_ffffu32) != 0 {
        CANONICAL_NAN
    } else {
        bits
    }
}

pub fn clone_string(s: &String) -> (r: String)
    ensures
        r@ == s@,
{
    s.clone()
}

pub fn clone_opt_string(o: &Option<String>) -> (r: Option<String>)
    ensures
        opt_str_view(r) == opt_str_view(*o),
{
    match o {
        Option::Some(s) => Option::Some(clone_string(s)),
        Option::None => Option::None,
    }
}

impl GameDataValue {
    /// The value of a float given by its bit pattern; negative zero becomes
    /// zero and every NaN the same NaN, so that equality of values is the
    /// total equality of floats.
    pub fn float_from_bits(bits: u32) -> (r: GameDataValue)
        ensures
            r@ == ValueView::Float(float_bits_normal(bits)),
    {
        if bits == NEGATIVE_ZERO {
            GameDataValue::Float(0)
        } else if (bits & 0x7f80_0000u32) == 0x7f80_0000u32 && (bits & 0x007f_ffffu32) != 0 {
            GameDataValue::Float(CANONICAL_NAN)
        } else {
            GameDataValue::Float(bits)
        }
    }

    /// A copy of the value.
    pub fn duplicate(&self) -> (r: GameDataValue)
        ensures
            r@ == self@,
    {
        match self {
            GameDataValue::Bool(b) => GameDataValue::Bool(*b),
            GameDataValue::Int(i) => GameDataValue::Int(*i),
            GameDataValue::Float(f) => GameDataValue::Float(*f),
            GameDataValue::String(s) => GameDataValue::String(clone_string(s)),
            GameDataValue::Next(n) => GameDataValue::Next(clone_opt_string(n)),
        }
    }

    /// Structural equality of two values.
    pub fn same_as(&self, other: &GameDataValue) -> (r: bool)
        ensures
            r == (self@ == other@),
    {
        match self {
            GameDataValue::Bool(a) => match other {
                GameDataValue::Bool(b) => *a == *b,
                _ => false,
            },
            GameDataValue::Int(a) => match other {
                GameDataValue::Int(b) => *a == *b,
                _ => false,
            },
            GameDataValue::Float(a) => match other {
                GameDataValue::Float(b) => *a == *b,
                _ => false,
            },
            GameDataValue::String(a) => match other {
                GameDataValue::String(b) => *a == *b,
                _ => false,
            },
            GameDataValue::Next(a) => match other {
                GameDataValue::Next(b) => match a {
                    Option::Some(x) => match b {
                        Option::Some(y) => *x == *y,
                        Option::None => false,
                    },
                    Option::None => b.is_none(),
                },
                _ => false,
            },
        }
    }

    pub fn unwrap_bool(self) -> (r: bool)
        requires
            self is Bool,
        ensures
            self@ == ValueView::Bool(r),
    {
        match self {
            GameDataValue::Bool(b) => b,
            _ => false,
        }
    }

    pub fn unwrap_i32(self) -> (r: i32)
        requires
            self is Int,
        ensures
            self@ == ValueView::Int(r),
    {
        match self {
            GameDataValue::Int(i) => i,
            _ => 0,
        }
    }

    /// The bit pattern of a float value.
    pub fn unwrap_f32_bits(self) -> (r: u32)
        requires
            self is Float,
        ensures
            self@ == ValueView::Float(r),
    {
        match self {
            GameDataValue::Float(f) => f,
            _ => 0,
        }
    }

    pub fn unwrap_string(self) -> (r: String)
        requires
            self is String,
        ensures
            self@ == ValueView::Str(r@),
    {
        match self {
            GameDataValue::String(s) => s,
            _ => String::new(),
        }
    }

    pub fn unwrap_list_next(self) -> (r: Option<String>)
        requires
            self is Next,
        ensures
            self@ == ValueView::Next(opt_str_view(r)),
    {
        match self {
            GameDataValue::Next(n) => n,
            _ => Option::None,
        }
    }
}

/// A change of one path: a new value, or the removal of the path.
#[derive(Clone, Debug, PartialEq, Eq)]
pub enum ItemChange {
    SetTo(GameDataValue),
    Removed,
}

/// What an `ItemChange` means to specifications.
pub enum ChangeView {
    SetTo(ValueView),
    Removed,
}

impl View for ItemChange {
    type V = ChangeView;

    open spec fn view(&self) -> ChangeView {
        match self {
            ItemChange::SetTo(v) => ChangeView::SetTo(v@),
            ItemChange::Removed => ChangeView::Removed,
        }
    }
}

impl ItemChange {
    pub fn duplicate(&self) -> (r: ItemChange)
        ensures
            r@ == self@,
    {
        match self {
            ItemChange::SetTo(v) => ItemChange::SetTo(v.duplicate()),
            ItemChange::Removed => ItemChange::Removed,
        }
    }

    /// Structural equality of two changes.
    pub fn same_as(&self, other: &ItemChange) -> (r: bool)
        ensures
            r == (self@ == other@),
    {
        match (self, other) {
            (ItemChange::SetTo(a), ItemChange::SetTo(b)) => a.same_as(b),
            (ItemChange::Removed, ItemChange::Removed) => true,
            _ => false,
        }
    }

    pub fn unwrap_set(self) -> (r: GameDataValue)
        requires
            self is SetTo,
        ensures
            self@ == ChangeView::SetTo(r@),
    {
        match self {
            ItemChange::SetTo(v) => v,
            ItemChange::Removed => GameDataValue::Bool(false),
        }
    }

    pub fn into_option(self) -> (r: Option<GameDataValue>)
        ensures
            self is Removed <==> r is None,
            r matches Option::Some(v) ==> self@ == ChangeView::SetTo(v@),
    {
        match self {
            ItemChange::SetTo(v) => Option::Some(v),
            ItemChange::Removed => Option::None,
        }
    }
}

/// Whether every character is an ASCII digit.
pub open spec fn all_digits(s: Seq<char>) -> bool {
    forall|i: int| 0 <= i < s.len() ==> '0' <= #[trigger] s[i] <= '9'
}

/// The number that a string of decimal digits writes.
pub open spec fn digits_value(s: Seq<char>) -> int
    decreases s.len(),
{
    if s.len() == 0 {
        0
    } else {
        10 * digits_value(s.drop_last()) + (s.last() as int - '0' as int)
    }
}

/// A decimal integer as `i32::from_str` reads it: an optional `+` or `-`,
/// then one or more ASCII digits, and a value that fits.
pub open spec fn parse_i32_spec(s: Seq<char>) -> Option<i32> {
    let neg = s.len() > 0 && s[0] == '-';
    let body = if s.len() > 0 && (s[0] == '-' || s[0] == '+') {
        s.drop_first()
    } else {
        s
    };
    if body.len() == 0 || !all_digits(body) {
        Option::None
    } else {
        let v = if neg {
            -digits_value(body)
        } else {
            digits_value(body)
        };
        if i32::MIN <= v <= i32::MAX {
            Option::Some(v as i32)
        } else {
            Option::None
        }
    }
}

proof fn lemma_digits_value_grows(s: Seq<char>, k: int)
    requires
        all_digits(s),
        0 <= k <= s.len(),
    ensures
        0 <= digits_value(s.take(k)) <= digits_value(s),
    decreases s.len() - k,
{
    if k < s.len() {
        lemma_digits_value_grows(s, k + 1);
        assert(s.take(k + 1).drop_last() =~= s.take(k));
        assert(s.take(k + 1).last() == s[k]);
    } else {
        assert(s.take(k) =~= s);
        lemma_digits_value_nonneg(s);
    }
}

proof fn lemma_digits_value_nonneg(s: Seq<char>)
    requires
        all_digits(s),
    ensures
        digits_value(s) >= 0,
    decreases s.len(),
{
    if s.len() > 0 {
        assert(all_digits(s.drop_last())) by {
            assert forall|i: int| 0 <= i < s.drop_last().len() implies '0' <= #[trigger] s.drop_last()[i] <= '9' by {
                assert(s.drop_last()[i] == s[i]);
            }
        }
        lemma_digits_value_nonneg(s.drop_last());
        assert('0' <= s[s.len() - 1] <= '9');
    }
}

/// Reads a decimal `i32`.
pub fn parse_i32(s: &str) -> (r: Option<i32>)
    ensures
        r == parse_i32_spec(s@),
{
    let n = s.unicode_len();
    if n == 0 {
        return Option::None;
    }
    let first = s.get_char(0);
    let neg = first == '-';
    let start: usize = if first == '-' || first == '+' { 1 } else { 0 };
    let ghost body = if s@.len() > 0 && (s@[0] == '-' || s@[0] == '+') { s@.drop_first() } else { s@ };
    assert(body =~= s@.skip(start as int));
    if start == n {
        return Option::None;
    }
    let mut acc: i64 = 0;
    let mut i: usize = start;
    assert(body.take(0) =~= Seq::<char>::empty());
    while i < n
        invariant
            n == s@.len(),
            start <= i <= n,
            body == s@.skip(start as int),
            body == (if s@.len() > 0 && (s@[0] == '-' || s@[0] == '+') { s@.drop_first() } else { s@ }),
            neg == (s@.len() > 0 && s@[0] == '-'),
            0 <= acc <= 2147483648,
            acc == digits_value(body.take(i - start)),
            forall|j: int| 0 <= j < i - start ==> '0' <= #[trigger] body[j] <= '9',
        decreases n - i,
    {
        let c = s.get_char(i);
        assert(body[i - start] == c);
        if !('0' <= c && c <= '9') {
            assert(!all_digits(body));
            assert(parse_i32_spec(s@) is None);
            return Option::None;
        }
        let d = (c as u32 - '0' as u32) as i64;
        assert(d == (c as int) - ('0' as int));
        assert(body.take(i - start + 1).drop_last() =~= body.take(i - start));
        assert(body.take(i - start + 1).last() == c);
        let next = acc * 10 + d;
        if next > 2147483648 {
            proof {
                let k = i - start + 1;
                assert forall|j: int| 0 <= j < k implies '0' <= #[trigger] body.take(k)[j] <= '9' by {
                    assert(body.take(k)[j] == body[j]);
                }
                assert(digits_value(body.take(k)) == next);
                if all_digits(body) {
                    lemma_digits_value_grows(body, k);
                }
                assert(parse_i32_spec(s@) is None);
            }
            return Option::None;
        }
        acc = next;
        i = i + 1;
    }
    assert(body.take(i - start) =~= body);
    assert(all_digits(body));
    if neg {
        Option::Some((-acc) as i32)
    } else if acc <= 2147483647 {
        Option::Some(acc as i32)
    } else {
        Option::None
    }
}

/// The value that `input` gives when read as the kind of `v`: `true` or
/// `false` for a boolean, a decimal for an integer, the input itself for a
/// string.
pub open spec fn parse_as(v: ValueView, input: Seq<char>) -> Option<ValueView> {
    match v {
        ValueView::Bool(_) => if input == "true"@ {
            Option::Some(ValueView::Bool(true))
        } else if input == "false"@ {
            Option::Some(ValueView::Bool(false))
        } else {
            Option::None
        },
        ValueView::Int(_) => match parse_i32_spec(input) {
            Option::Some(i) => Option::Some(ValueView::Int(i)),
            Option::None => Option::None,
        },
        ValueView::Str(_) => Option::Some(ValueView::Str(input)),
        _ => Option::None,
    }
}

impl GameDataValue {
    /// Replaces the value by `input` read as a value of the same kind.
    /// Floats are read by the caller, which hands their bits to
    /// `float_from_bits`; a link cannot be read.
    pub fn parse_replace(&mut self, input: &str) -> (r: Result<(), ()>)
        requires
            !(*old(self) is Next),
            !(*old(self) is Float),
        ensures
            r is Ok <==> parse_as(old(self)@, input@) is Some,
            r is Ok ==> final(self)@ == parse_as(old(self)@, input@)->Some_0,
            r is Err ==> final(self)@ == old(self)@,
    {
        match self {
            GameDataValue::Bool(b) => {
                if crate::path::segment_equals(input, "true") {
                    *b = true;
                    Result::Ok(())
                } else if crate::path::segment_equals(input, "false") {
                    *b = false;
                    Result::Ok(())
                } else {
                    Result::Err(())
                }
            },
            GameDataValue::Int(i) => match parse_i32(input) {
                Option::Some(v) => {
                    *i = v;
                    Result::Ok(())
                },
                Option::None => Result::Err(()),
            },
            GameDataValue::String(s) => {
                let mut t = String::new();
                t.append(input);
                *s = t;
                Result::Ok(())
            },
            _ => Result::Err(()),
        }
    }
}

/// The change that a typed answer asks for at a path: no answer removes the
/// path; an answer is read as the kind of the path's current value, or
/// taken as a string where the path has no value.
pub open spec fn answer_change(current: Option<ValueView>, answer: Option<Seq<char>>) -> Option<ChangeView> {
    match answer {
        Option::None => Option::Some(ChangeView::Removed),
        Option::Some(text) => match current {
            Option::None => Option::Some(ChangeView::SetTo(ValueView::Str(text))),
            Option::Some(v) => match parse_as(v, text) {
                Option::Some(w) => Option::Some(ChangeView::SetTo(w)),
                Option::None => Option::None,
            },
        },
    }
}

pub open spec fn opt_value_view(o: Option<GameDataValue>) -> Option<ValueView> {
    match o {
        Option::Some(v) => Option::Some(v@),
        Option::None => Option::None,
    }
}

/// Turns a typed answer for a conflicted path into a change, per
/// `answer_change`; `Err` where the text does not read as the value's kind.
pub fn change_from_answer(current: Option<GameDataValue>, answer: Option<String>) -> (r: Result<ItemChange, ()>)
    requires
        current matches Option::Some(v) ==> !(v is Next) && !(v is Float),
    ensures
        match r {
            Result::Ok(c) => answer_change(opt_value_view(current), opt_str_view(answer)) == Option::Some(c@),
            Result::Err(_) => answer_change(opt_value_view(current), opt_str_view(answer)) is None,
        },
{
    match answer {
        Option::None => Result::Ok(ItemChange::Removed),
        Option::Some(text) => match current {
            Option::None => Result::Ok(ItemChange::SetTo(GameDataValue::String(text))),
            Option::Some(v) => {
                let mut value = v;
                match value.parse_replace(text.as_str()) {
                    Result::Ok(()) => Result::Ok(ItemChange::SetTo(value)),
                    Result::Err(()) => Result::Err(()),
                }
            },
        },
    }
}

} // verus!
