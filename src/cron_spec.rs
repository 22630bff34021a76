//! Recurrence expressions: their parsed form, and its compilation to bit sets.

use vstd::prelude::*;
use vstd::string::StringSliceAdditionalSpecFns;

use crate::bitset::{index_set, union_of, BitSetIndex, NonEmptyBitSet};
use crate::cron::CronCompiled;

verus! {

/// What a token of a field stands for, over integers.
pub enum TokenView {
    Range { start: int, end: int, step: int },
    Value(int),
}

/// The `j`-th index of a stepped range.
pub open spec fn step_point(start: int, step: int, j: int) -> int {
    start + j * step
}

/// The indices `start, start + step, ...` that do not exceed `end`.
pub open spec fn stepped_range(start: int, end: int, step: int) -> Set<int> {
    Set::new(|i: int| exists|j: int| 0 <= j && i == #[trigger] step_point(start, step, j) && i <= end)
}

/// The indices that a token selects.
pub open spec fn token_set(t: TokenView) -> Set<int> {
    match t {
        TokenView::Range { start, end, step } => stepped_range(start, end, step),
        TokenView::Value(v) => set![v],
    }
}

/// The indices that a field selects: the union over its tokens.
pub open spec fn field_set(tokens: Seq<TokenView>) -> Set<int> {
    Set::new(|i: int| exists|k: int| 0 <= k < tokens.len() && token_set(tokens[k]).contains(i))
}

/// One token of a field: a single index, or an inclusive range with a step.
#[derive(Clone, Copy, Debug, PartialEq, Eq, Structural)]
pub enum CronItem {
    Range { start: BitSetIndex, end: BitSetIndex, step: BitSetIndex },
    Value(BitSetIndex),
}

impl View for CronItem {
    type V = TokenView;

    open spec fn view(&self) -> TokenView {
        match *self {
            CronItem::Range { start, end, step } => TokenView::Range {
                start: start@,
                end: end@,
                step: step@,
            },
            CronItem::Value(v) => TokenView::Value(v@),
        }
    }
}

/// A token whose step, if any, is positive.
pub open spec fn token_wf(t: TokenView) -> bool {
    match t {
        TokenView::Range { step, .. } => step >= 1,
        TokenView::Value(_) => true,
    }
}

/// The views of a field's tokens.
pub open spec fn tokens_of(items: Seq<CronItem>) -> Seq<TokenView> {
    items.map_values(|c: CronItem| c@)
}

/// Every token of the field has a positive step.
pub open spec fn field_wf(items: Seq<CronItem>) -> bool {
    forall|k: int| 0 <= k < items.len() ==> token_wf(#[trigger] items[k]@)
}

impl CronItem {
    /// The set of indices of the token, none when it selects none.
    pub fn compile(&self) -> (r: Option<NonEmptyBitSet>)
        requires
            token_wf(self@),
        ensures
            r is Some <==> token_set(self@) != Set::<int>::empty(),
            r is Some ==> r->0@ == token_set(self@),
    {
        match *self {
            CronItem::Value(value) => {
                assert(token_set(self@).contains(value@));

                Some(NonEmptyBitSet::new(value))
            },
            CronItem::Range { start, end, step } => {
                let lo = start.get();
                let hi = end.get();
                let st = step.get();
                let mut items: Vec<usize> = Vec::new();
                let mut idx: usize = lo;
                let ghost mut k: int = 0;
                proof {
                    assert(index_set(items@) =~= Set::<int>::empty());
                }
                while idx <= hi
                    invariant
                        lo < 64,
                        hi < 64,
                        1 <= st < 64,
                        k >= 0,
                        idx == lo + k * st,
                        idx <= hi + st || k == 0,
                        items@.len() == k,
                        forall|j: int| 0 <= j < k ==> items@[j] == lo + j * st,
                        forall|j: int| 0 <= j < k ==> items@[j] <= hi,
                        k > 0 ==> idx - st <= hi,
                    decreases hi + st - idx,
                {
                    items.push(idx);
                    proof {
                        assert(items@[k] == lo + k * st);
                        assert(idx + st == lo + (k + 1) * st) by (nonlinear_arith)
                            requires
                                idx == lo + k * st,
                        ;
                        k = k + 1;
                    }
                    idx = idx + st;
                }
                let ghost want = token_set(self@);
                proof {
                    assert forall|i: int| index_set(items@).contains(i) <==> want.contains(i) by {
                        if index_set(items@).contains(i) {
                            let j = choose|j: int| 0 <= j < items@.len() && items@[j] == i;
                            assert(lo + j * st <= lo + (k - 1) * st) by (nonlinear_arith)
                                requires
                                    j <= k - 1,
                                    st >= 1,
                            ;
                            assert(lo + (k - 1) * st == idx - st) by (nonlinear_arith)
                                requires
                                    idx == lo + k * st,
                            ;
                            assert(i <= hi);
                            assert(i == step_point(lo as int, st as int, j));
                            assert(want.contains(i));
                        }
                        if want.contains(i) {
                            let j = choose|j: int|
                                0 <= j && i == step_point(lo as int, st as int, j) && i <= hi;
                            if j >= k {
                                assert(lo + j * st >= lo + k * st) by (nonlinear_arith)
                                    requires
                                        j >= k,
                                        st >= 1,
                                ;
                            }
                            assert(items@[j] == i);
                        }
                    }
                    assert(index_set(items@) =~= want);
                    if k == 0 {
                        assert(want =~= Set::<int>::empty());
                    } else {
                        assert(index_set(items@).contains(items@[0] as int));
                    }
                    if lo <= hi {
                        assert(k > 0);
                    }
                }
                NonEmptyBitSet::from_items(items.as_slice())
            },
        }
    }
}

/// Compiles a field: the union of its tokens' sets, none when that is empty.
fn compile_component(items: &[CronItem]) -> (r: Option<NonEmptyBitSet>)
    requires
        field_wf(items@),
    ensures
        r is Some <==> field_set(tokens_of(items@)) != Set::<int>::empty(),
        r is Some ==> r->0@ == field_set(tokens_of(items@)),
{
    let ghost tokens = tokens_of(items@);
    let mut sets: Vec<NonEmptyBitSet> = Vec::new();
    let mut k: usize = 0;
    while k < items.len()
        invariant
            k <= items@.len(),
            field_wf(items@),
            tokens == tokens_of(items@),
            union_of(sets@) == field_set(tokens.take(k as int)),
        decreases items@.len() - k,
    {
        let ghost before = sets@;
        let item = items[k];
        assert(token_wf(items@[k as int]@));
        let compiled = item.compile();
        assert(tokens.take(k + 1)[k as int] == item@);
        assert(forall|j: int| 0 <= j < k ==> tokens.take(k + 1)[j] == tokens.take(k as int)[j]);
        match compiled {
            Some(set) => {
                sets.push(set);
                assert(union_of(sets@) =~= field_set(tokens.take(k + 1))) by {
                    assert(sets@[before.len() as int] == set);
                    assert forall|i: int| #[trigger]
                        union_of(sets@).contains(i) implies field_set(
                        tokens.take(k + 1),
                    ).contains(i) by {
                        let j = choose|j: int| 0 <= j < sets@.len() && sets@[j]@.contains(i);
                        if j < before.len() {
                            assert(union_of(before).contains(i));
                        }
                    }
                    assert forall|i: int| #[trigger]
                        field_set(tokens.take(k + 1)).contains(i) implies union_of(
                        sets@,
                    ).contains(i) by {
                        let j = choose|j: int|
                            0 <= j < k + 1 && token_set(#[trigger] tokens.take(k + 1)[j]).contains(i);
                        if j < k {
                            assert(field_set(tokens.take(k as int)).contains(i));
                            let m = choose|m: int| 0 <= m < before.len() && before[m]@.contains(i);
                            assert(sets@[m] == before[m]);
                        } else {
                            assert(sets@[before.len() as int]@.contains(i));
                        }
                    }
                }
            },
            None => {
                assert(union_of(sets@) =~= field_set(tokens.take(k + 1))) by {
                    assert forall|i: int| #[trigger]
                        field_set(tokens.take(k + 1)).contains(i) implies union_of(
                        sets@,
                    ).contains(i) by {
                        let j = choose|j: int|
                            0 <= j < k + 1 && token_set(#[trigger] tokens.take(k + 1)[j]).contains(i);
                        assert(j < k);
                        assert(field_set(tokens.take(k as int)).contains(i));
                    }
                    assert forall|i: int| #[trigger]
                        union_of(sets@).contains(i) implies field_set(
                        tokens.take(k + 1),
                    ).contains(i) by {
                        assert(field_set(tokens.take(k as int)).contains(i));
                    }
                }
            },
        }
        k = k + 1;
    }
    assert(tokens.take(k as int) =~= tokens);
    let r = NonEmptyBitSet::from_bitsets(sets.as_slice());
    proof {
        if sets@.len() == 0 {
            assert(union_of(sets@) =~= Set::<int>::empty());
        }
    }
    r
}

/// Why a recurrence does not compile.
#[derive(Clone, Copy, Debug, PartialEq, Eq, Structural)]
pub enum CronError {
    /// A field selects no index.
    Empty,
    /// A field selects an index outside its domain.
    OutOfRange,
}

/// The error of a field whose set is `s` and whose domain is `[lo, hi]`, if any.
pub open spec fn field_error(s: Set<int>, lo: int, hi: int) -> Option<CronError> {
    if s == Set::<int>::empty() {
        Some(CronError::Empty)
    } else if exists|i: int| s.contains(i) && (i < lo || hi < i) {
        Some(CronError::OutOfRange)
    } else {
        None
    }
}

/// The parsed form of a recurrence: the tokens of each of its five fields.
#[derive(Clone, Debug, PartialEq, Eq)]
pub struct CronSpec {
    pub minute: Vec<CronItem>,
    pub hour: Vec<CronItem>,
    pub mday: Vec<CronItem>,
    pub month: Vec<CronItem>,
    pub wday: Vec<CronItem>,
}

impl CronSpec {
    /// Every step of every field is positive.
    pub open spec fn wf(&self) -> bool {
        &&& field_wf(self.minute@)
        &&& field_wf(self.hour@)
        &&& field_wf(self.mday@)
        &&& field_wf(self.month@)
        &&& field_wf(self.wday@)
    }

    pub open spec fn minute_set(&self) -> Set<int> {
        field_set(tokens_of(self.minute@))
    }

    pub open spec fn hour_set(&self) -> Set<int> {
        field_set(tokens_of(self.hour@))
    }

    pub open spec fn mday_set(&self) -> Set<int> {
        field_set(tokens_of(self.mday@))
    }

    pub open spec fn month_set(&self) -> Set<int> {
        field_set(tokens_of(self.month@))
    }

    pub open spec fn wday_set(&self) -> Set<int> {
        field_set(tokens_of(self.wday@))
    }

    /// The error of the first field, in the order minute, hour, day of month,
    /// month, weekday, that is empty or leaves its domain.
    pub open spec fn first_error(&self) -> Option<CronError> {
        if field_error(self.minute_set(), 0, 59) is Some {
            field_error(self.minute_set(), 0, 59)
        } else if field_error(self.hour_set(), 0, 23) is Some {
            field_error(self.hour_set(), 0, 23)
        } else if field_error(self.mday_set(), 1, 31) is Some {
            field_error(self.mday_set(), 1, 31)
        } else if field_error(self.month_set(), 1, 12) is Some {
            field_error(self.month_set(), 1, 12)
        } else {
            field_error(self.wday_set(), 0, 6)
        }
    }

    /// Compiles each field to its set and checks it against the field's domain:
    /// minute 0-59, hour 0-23, day of month 1-31, month 1-12, weekday 0-6.
    pub fn compile(&self) -> (r: Result<CronCompiled, CronError>)
        requires
            self.wf(),
        ensures
            r matches Err(e) ==> self.first_error() == Some(e),
            r is Ok <==> self.first_error() is None,
            r matches Ok(c) ==> {
                &&& c.minute@ == self.minute_set()
                &&& c.hour@ == self.hour_set()
                &&& c.mday@ == self.mday_set()
                &&& c.month@ == self.month_set()
                &&& c.wday@ == self.wday_set()
            },
    {
        let minute = match compile_field(self.minute.as_slice(), 0, 59) {
            Ok(s) => s,
            Err(e) => return Err(e),
        };
        let hour = match compile_field(self.hour.as_slice(), 0, 23) {
            Ok(s) => s,
            Err(e) => return Err(e),
        };
        let mday = match compile_field(self.mday.as_slice(), 1, 31) {
            Ok(s) => s,
            Err(e) => return Err(e),
        };
        let month = match compile_field(self.month.as_slice(), 1, 12) {
            Ok(s) => s,
            Err(e) => return Err(e),
        };
        let wday = match compile_field(self.wday.as_slice(), 0, 6) {
            Ok(s) => s,
            Err(e) => return Err(e),
        };
        Ok(CronCompiled { minute, hour, mday, month, wday })
    }
}

/// Compiles one field and checks it against the domain `[lo, hi]`.
fn compile_field(items: &[CronItem], lo: usize, hi: usize) -> (r: Result<NonEmptyBitSet, CronError>)
    requires
        field_wf(items@),
    ensures
        r matches Err(e) ==> field_error(field_set(tokens_of(items@)), lo as int, hi as int) == Some(
            e,
        ),
        r is Ok <==> field_error(field_set(tokens_of(items@)), lo as int, hi as int) is None,
        r matches Ok(s) ==> s@ == field_set(tokens_of(items@)),
{
    let set = match compile_component(items) {
        Some(s) => s,
        None => return Err(CronError::Empty),
    };
    let max = set.max();
    let min = set.min();
    if max.get() > hi || min.get() < lo {
        return Err(CronError::OutOfRange);
    }
    Ok(set)
}

/// Why a recurrence text does not parse.
#[derive(Clone, Copy, Debug, PartialEq, Eq, Structural)]
pub enum ParseError {
    /// The text does not hold exactly five space-separated fields.
    FieldCount,
    /// An item holds more than one `/`.
    StepSyntax,
    /// An item holds more than one `-`.
    RangeSyntax,
    /// A number is not a decimal numeral that fits a `usize`.
    InvalidNumber,
    /// A number is 64 or more, or a step is zero.
    NumberOutOfRange,
}

impl ParseError {
    /// A short description of the error.
    pub fn message(&self) -> &'static str {
        match self {
            ParseError::FieldCount => "wrong number of cron components",
            ParseError::StepSyntax => "wrong step syntax in cron",
            ParseError::RangeSyntax => "wrong range syntax in cron",
            ParseError::InvalidNumber => "invalid cron number",
            ParseError::NumberOutOfRange => "cron number out of range",
        }
    }
}

/// The pieces of `s` between the occurrences of `sep`: one more piece than
/// there are separators, some of them possibly empty.
pub open spec fn split_bytes(s: Seq<u8>, sep: u8) -> Seq<Seq<u8>>
    decreases s.len(),
{
    if s.len() == 0 {
        seq![Seq::<u8>::empty()]
    } else {
        let rest = split_bytes(s.drop_last(), sep);
        if s.last() == sep {
            rest.push(Seq::<u8>::empty())
        } else {
            rest.update(rest.len() - 1, rest.last().push(s.last()))
        }
    }
}

proof fn lemma_split_non_empty(s: Seq<u8>, sep: u8)
    ensures
        split_bytes(s, sep).len() >= 1,
    decreases s.len(),
{
    if s.len() > 0 {
        lemma_split_non_empty(s.drop_last(), sep);
    }
}

pub open spec fn is_digit(b: u8) -> bool {
    48 <= b <= 57
}

/// The value of a sequence of decimal digits.
pub open spec fn digits_value(s: Seq<u8>) -> int
    decreases s.len(),
{
    if s.len() == 0 {
        0
    } else {
        digits_value(s.drop_last()) * 10 + (s.last() - 48)
    }
}

/// The digits of a numeral: what follows a leading `+`, if there is one.
pub open spec fn numeral_digits(s: Seq<u8>) -> Seq<u8> {
    if s.len() > 0 && s[0] == 43 {
        s.drop_first()
    } else {
        s
    }
}

/// A number of a recurrence: a decimal numeral of `usize` as std reads it,
/// then below 64.
pub open spec fn parse_number_spec(s: Seq<u8>) -> Result<int, ParseError> {
    let d = numeral_digits(s);
    if d.len() == 0 || !(forall|i: int| 0 <= i < d.len() ==> is_digit(#[trigger] d[i])) {
        Err(ParseError::InvalidNumber)
    } else if digits_value(d) > usize::MAX {
        Err(ParseError::InvalidNumber)
    } else if digits_value(d) >= 64 {
        Err(ParseError::NumberOutOfRange)
    } else {
        Ok(digits_value(d))
    }
}

/// The step of an item: its second `/`-piece, 1 when it has none; it must
/// not be zero.
pub open spec fn parse_step_spec(parts: Seq<Seq<u8>>) -> Result<int, ParseError> {
    if parts.len() == 2 {
        match parse_number_spec(parts[1]) {
            Ok(n) => if n == 0 {
                Err(ParseError::NumberOutOfRange)
            } else {
                Ok(n)
            },
            Err(e) => Err(e),
        }
    } else {
        Ok(1)
    }
}

/// One comma-separated item of a field whose domain is `[min, max]`:
/// `BASE[/STEP]`, where `BASE` is `*`, `N` or `N-M`.
pub open spec fn parse_item_spec(item: Seq<u8>, min: int, max: int) -> Result<TokenView, ParseError> {
    let parts = split_bytes(item, 47);
    if parts.len() > 2 {
        Err(ParseError::StepSyntax)
    } else {
        match parse_step_spec(parts) {
            Err(e) => Err(e),
            Ok(step) => {
                let range = split_bytes(parts[0], 45);
                if range.len() == 1 {
                    if range[0] == seq![42u8] {
                        Ok(TokenView::Range { start: min, end: max, step })
                    } else {
                        match parse_number_spec(range[0]) {
                            Ok(v) => Ok(TokenView::Value(v)),
                            Err(e) => Err(e),
                        }
                    }
                } else if range.len() == 2 {
                    match parse_number_spec(range[0]) {
                        Err(e) => Err(e),
                        Ok(start) => match parse_number_spec(range[1]) {
                            Err(e) => Err(e),
                            Ok(end) => Ok(TokenView::Range { start, end, step }),
                        },
                    }
                } else {
                    Err(ParseError::RangeSyntax)
                }
            },
        }
    }
}

/// The items of a field, in order; the first item that fails gives the error.
pub open spec fn parse_items_spec(items: Seq<Seq<u8>>, min: int, max: int) -> Result<
    Seq<TokenView>,
    ParseError,
>
    decreases items.len(),
{
    if items.len() == 0 {
        Ok(Seq::<TokenView>::empty())
    } else {
        match parse_items_spec(items.drop_last(), min, max) {
            Err(e) => Err(e),
            Ok(ts) => match parse_item_spec(items.last(), min, max) {
                Err(e) => Err(e),
                Ok(t) => Ok(ts.push(t)),
            },
        }
    }
}

/// A field: its comma-separated items.
pub open spec fn parse_field_spec(field: Seq<u8>, min: int, max: int) -> Result<
    Seq<TokenView>,
    ParseError,
> {
    parse_items_spec(split_bytes(field, 44), min, max)
}

/// Splits `s` at each `sep`.
fn split_on(s: &[u8], sep: u8) -> (r: Vec<Vec<u8>>)
    ensures
        r@.map_values(|v: Vec<u8>| v@) == split_bytes(s@, sep),
{
    let mut done: Vec<Vec<u8>> = Vec::new();
    let mut cur: Vec<u8> = Vec::new();
    let mut i: usize = 0;
    assert(done@.map_values(|v: Vec<u8>| v@).push(cur@) =~= split_bytes(s@.take(0), sep));
    while i < s.len()
        invariant
            i <= s@.len(),
            done@.map_values(|v: Vec<u8>| v@).push(cur@) == split_bytes(s@.take(i as int), sep),
        decreases s@.len() - i,
    {
        let b = s[i];
        let ghost before = done@.map_values(|v: Vec<u8>| v@);
        assert(s@.take(i + 1).drop_last() =~= s@.take(i as int));
        assert(s@.take(i + 1).last() == b);
        if b == sep {
            done.push(cur);
            cur = Vec::new();
            assert(done@.map_values(|v: Vec<u8>| v@) =~= before.push(
                done@[done@.len() - 1]@,
            ));
        } else {
            cur.push(b);
        }
        assert(done@.map_values(|v: Vec<u8>| v@).push(cur@) =~= split_bytes(
            s@.take(i + 1),
            sep,
        ));
        i = i + 1;
    }
    assert(s@.take(i as int) =~= s@);
    done.push(cur);
    assert(done@.map_values(|v: Vec<u8>| v@) =~= split_bytes(s@, sep));
    done
}

/// The integer that a parsed number stands for.
pub open spec fn number_view(r: Result<BitSetIndex, ParseError>) -> Result<int, ParseError> {
    match r {
        Ok(i) => Ok(i@),
        Err(e) => Err(e),
    }
}

proof fn lemma_digits_value_grows(s: Seq<u8>)
    requires
        s.len() > 0,
        forall|i: int| 0 <= i < s.len() ==> is_digit(#[trigger] s[i]),
    ensures
        digits_value(s) >= digits_value(s.drop_last()),
        digits_value(s.drop_last()) >= 0,
    decreases s.len(),
{
    if s.len() > 1 {
        lemma_digits_value_grows(s.drop_last());
    }
}

/// Reads a number of a recurrence.
fn parse_number(v: &[u8]) -> (r: Result<BitSetIndex, ParseError>)
    ensures
        number_view(r) == parse_number_spec(v@),
{
    let ghost d = numeral_digits(v@);
    let mut start: usize = 0;
    if v.len() > 0 && v[0] == 43u8 {
        start = 1;
    }
    assert(d =~= v@.skip(start as int));
    if start == v.len() {
        return Err(ParseError::InvalidNumber);
    }
    let mut acc: usize = 0;
    let mut overflow = false;
    let mut i: usize = start;
    assert(d.take(0) =~= Seq::<u8>::empty());
    while i < v.len()
        invariant
            start <= i <= v@.len(),
            d == v@.skip(start as int),
            d == numeral_digits(v@),
            forall|j: int| 0 <= j < i - start ==> is_digit(#[trigger] d[j]),
            overflow ==> digits_value(d.take(i - start)) > usize::MAX,
            !overflow ==> acc == digits_value(d.take(i - start)),
        decreases v@.len() - i,
    {
        let b = v[i];
        let ghost k = i - start;
        assert(d[k] == b);
        if b < 48u8 || b > 57u8 {
            assert(!is_digit(d[k]));
            return Err(ParseError::InvalidNumber);
        }
        let digit = (b - 48u8) as usize;
        assert(d.take(k + 1).drop_last() =~= d.take(k));
        assert(d.take(k + 1).last() == b);
        proof {
            assert forall|j: int| 0 <= j < k + 1 implies is_digit(#[trigger] d.take(k + 1)[j]) by {
                assert(d.take(k + 1)[j] == d[j]);
            }
            lemma_digits_value_grows(d.take(k + 1));
        }
        if !overflow {
            if acc > (usize::MAX - digit) / 10 {
                overflow = true;
                assert(acc * 10 + digit > usize::MAX) by (nonlinear_arith)
                    requires
                        acc > (usize::MAX - digit) / 10,
                        digit <= 9,
                ;
            } else {
                assert(acc * 10 + digit <= usize::MAX) by (nonlinear_arith)
                    requires
                        acc <= (usize::MAX - digit) / 10,
                        digit <= 9,
                ;
                acc = acc * 10 + digit;
            }
        }
        i = i + 1;
    }
    assert(d.take(i - start) =~= d);
    if overflow {
        return Err(ParseError::InvalidNumber);
    }
    match BitSetIndex::new(acc) {
        Some(idx) => Ok(idx),
        None => Err(ParseError::NumberOutOfRange),
    }
}

/// The token that a parsed item stands for.
pub open spec fn item_view(r: Result<CronItem, ParseError>) -> Result<TokenView, ParseError> {
    match r {
        Ok(c) => Ok(c@),
        Err(e) => Err(e),
    }
}

/// The tokens that a parsed field stands for.
pub open spec fn field_view(r: Result<Vec<CronItem>, ParseError>) -> Result<
    Seq<TokenView>,
    ParseError,
> {
    match r {
        Ok(v) => Ok(tokens_of(v@)),
        Err(e) => Err(e),
    }
}

/// Reads one item of a field whose domain is `[min, max]`.
fn parse_item(item: &[u8], min: BitSetIndex, max: BitSetIndex) -> (r: Result<CronItem, ParseError>)
    ensures
        item_view(r) == parse_item_spec(item@, min@, max@),
        r matches Ok(c) ==> token_wf(c@),
{
    let parts = split_on(item, 47u8);
    proof {
        lemma_split_non_empty(item@, 47u8);
    }
    let ghost ps = parts@.map_values(|v: Vec<u8>| v@);
    if parts.len() > 2 {
        return Err(ParseError::StepSyntax);
    }
    let step = if parts.len() == 2 {
        assert(parts@[1]@ == ps[1]);
        match parse_number(parts[1].as_slice()) {
            Ok(n) => {
                if n.get() == 0 {
                    return Err(ParseError::NumberOutOfRange);
                }
                n
            },
            Err(e) => return Err(e),
        }
    } else {
        BitSetIndex::unsafe_new(1u8)
    };
    assert(parse_step_spec(ps) == Ok::<int, ParseError>(step@));
    assert(parts@[0]@ == ps[0]);
    let range = split_on(parts[0].as_slice(), 45u8);
    proof {
        lemma_split_non_empty(ps[0], 45u8);
    }
    let ghost rs = range@.map_values(|v: Vec<u8>| v@);
    if range.len() == 1 {
        assert(range@[0]@ == rs[0]);
        let base = range[0].as_slice();
        if base.len() == 1 && base[0] == 42u8 {
            assert(rs[0] =~= seq![42u8]);
            Ok(CronItem::Range { start: min, end: max, step })
        } else {
            assert(rs[0] != seq![42u8]);
            match parse_number(base) {
                Ok(v) => Ok(CronItem::Value(v)),
                Err(e) => Err(e),
            }
        }
    } else if range.len() == 2 {
        assert(range@[0]@ == rs[0]);
        assert(range@[1]@ == rs[1]);
        let start = match parse_number(range[0].as_slice()) {
            Ok(v) => v,
            Err(e) => return Err(e),
        };
        let end = match parse_number(range[1].as_slice()) {
            Ok(v) => v,
            Err(e) => return Err(e),
        };
        Ok(CronItem::Range { start, end, step })
    } else {
        Err(ParseError::RangeSyntax)
    }
}

/// Reads a field whose domain is `[min, max]`: `*` stands for that domain.
fn parse_component(v: &[u8], min: BitSetIndex, max: BitSetIndex) -> (r: Result<
    Vec<CronItem>,
    ParseError,
>)
    ensures
        field_view(r) == parse_field_spec(v@, min@, max@),
        r matches Ok(items) ==> field_wf(items@),
{
    let pieces = split_on(v, 44u8);
    let ghost ps = pieces@.map_values(|p: Vec<u8>| p@);
    let mut result: Vec<CronItem> = Vec::new();
    let mut k: usize = 0;
    assert(ps.take(0) =~= Seq::<Seq<u8>>::empty());
    assert(tokens_of(result@) =~= Seq::<TokenView>::empty());
    while k < pieces.len()
        invariant
            k <= pieces@.len(),
            ps == pieces@.map_values(|p: Vec<u8>| p@),
            ps == split_bytes(v@, 44u8),
            parse_items_spec(ps.take(k as int), min@, max@) == Ok::<Seq<TokenView>, ParseError>(
                tokens_of(result@),
            ),
            field_wf(result@),
        decreases pieces@.len() - k,
    {
        assert(ps.take(k + 1).drop_last() =~= ps.take(k as int));
        assert(ps.take(k + 1).last() == pieces@[k as int]@);
        match parse_item(pieces[k].as_slice(), min, max) {
            Ok(item) => {
                let ghost before = result@;
                result.push(item);
                assert(tokens_of(result@) =~= tokens_of(before).push(item@));
            },
            Err(e) => {
                assert(parse_items_spec(ps.take(k + 1), min@, max@) == Err::<
                    Seq<TokenView>,
                    ParseError,
                >(e));
                proof {
                    lemma_items_error_persists(ps, k as int + 1, min@, max@);
                }
                return Err(e);
            },
        }
        k = k + 1;
    }
    assert(ps.take(k as int) =~= ps);
    Ok(result)
}

proof fn lemma_items_error_persists(items: Seq<Seq<u8>>, n: int, min: int, max: int)
    requires
        0 <= n <= items.len(),
        parse_items_spec(items.take(n), min, max) is Err,
    ensures
        parse_items_spec(items, min, max) == parse_items_spec(items.take(n), min, max),
    decreases items.len() - n,
{
    if n < items.len() {
        assert(items.take(n + 1).drop_last() =~= items.take(n));
        lemma_items_error_persists(items, n + 1, min, max);
    } else {
        assert(items.take(n) =~= items);
    }
}

/// What a parsed recurrence stands for: the tokens of each field.
pub struct CronSpecView {
    pub minute: Seq<TokenView>,
    pub hour: Seq<TokenView>,
    pub mday: Seq<TokenView>,
    pub month: Seq<TokenView>,
    pub wday: Seq<TokenView>,
}

impl View for CronSpec {
    type V = CronSpecView;

    open spec fn view(&self) -> CronSpecView {
        CronSpecView {
            minute: tokens_of(self.minute@),
            hour: tokens_of(self.hour@),
            mday: tokens_of(self.mday@),
            month: tokens_of(self.month@),
            wday: tokens_of(self.wday@),
        }
    }
}

/// A recurrence text: five fields separated by single spaces, in the order
/// minute (0-59), hour (0-23), day of month (1-31), month (1-12) and weekday
/// (0-6), where `*` stands for the field's domain; the first field that fails
/// gives the error.
pub open spec fn parse_text_spec(b: Seq<u8>) -> Result<CronSpecView, ParseError> {
    let f = split_bytes(b, 32);
    if f.len() != 5 {
        Err(ParseError::FieldCount)
    } else {
        match parse_field_spec(f[0], 0, 59) {
            Err(e) => Err(e),
            Ok(minute) => match parse_field_spec(f[1], 0, 23) {
                Err(e) => Err(e),
                Ok(hour) => match parse_field_spec(f[2], 1, 31) {
                    Err(e) => Err(e),
                    Ok(mday) => match parse_field_spec(f[3], 1, 12) {
                        Err(e) => Err(e),
                        Ok(month) => match parse_field_spec(f[4], 0, 6) {
                            Err(e) => Err(e),
                            Ok(wday) => Ok(CronSpecView { minute, hour, mday, month, wday }),
                        },
                    },
                },
            },
        }
    }
}

/// The recurrence that a parse result stands for.
pub open spec fn spec_view(r: Result<CronSpec, ParseError>) -> Result<CronSpecView, ParseError> {
    match r {
        Ok(c) => Ok(c@),
        Err(e) => Err(e),
    }
}

impl CronSpec {
    /// Reads a recurrence text.
    pub fn parse(text: &str) -> (r: Result<CronSpec, ParseError>)
        ensures
            spec_view(r) == parse_text_spec(text.spec_bytes()),
            r matches Ok(c) ==> c.wf(),
    {
        let bytes = text.as_bytes();
        let parts = split_on(bytes, 32u8);
        let ghost f = parts@.map_values(|v: Vec<u8>| v@);
        if parts.len() != 5 {
            return Err(ParseError::FieldCount);
        }
        assert(forall|i: int| 0 <= i < 5 ==> parts@[i]@ == f[i]);
        let minute = match parse_component(
            parts[0].as_slice(),
            BitSetIndex::unsafe_new(0),
            BitSetIndex::unsafe_new(59),
        ) {
            Ok(v) => v,
            Err(e) => return Err(e),
        };
        let hour = match parse_component(
            parts[1].as_slice(),
            BitSetIndex::unsafe_new(0),
            BitSetIndex::unsafe_new(23),
        ) {
            Ok(v) => v,
            Err(e) => return Err(e),
        };
        let mday = match parse_component(
            parts[2].as_slice(),
            BitSetIndex::unsafe_new(1),
            BitSetIndex::unsafe_new(31),
        ) {
            Ok(v) => v,
            Err(e) => return Err(e),
        };
        let month = match parse_component(
            parts[3].as_slice(),
            BitSetIndex::unsafe_new(1),
            BitSetIndex::unsafe_new(12),
        ) {
            Ok(v) => v,
            Err(e) => return Err(e),
        };
        let wday = match parse_component(
            parts[4].as_slice(),
            BitSetIndex::unsafe_new(0),
            BitSetIndex::unsafe_new(6),
        ) {
            Ok(v) => v,
            Err(e) => return Err(e),
        };
        Ok(CronSpec { minute, hour, mday, month, wday })
    }
}

impl std::str::FromStr for CronSpec {
    type Err = ParseError;

    fn from_str(v: &str) -> Result<Self, Self::Err> {
        CronSpec::parse(v)
    }
}

} // verus!
