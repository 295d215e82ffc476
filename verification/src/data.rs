//! Core datatypes: the parsed record of one call frame, and the structural
//! edit actions that can be applied to the visible tree.

use vstd::prelude::*;

verus! {

/// Mathematical content of a [`Record`]: its fields as character sequences
/// and an unbounded natural number.
pub ghost struct RecordModel {
    pub function: Seq<char>,
    pub file: Seq<char>,
    pub line: nat,
}

/// A record to be shown in the tree: the qualified function name, the source
/// file and the source line of one call frame.
#[derive(Debug)]
pub struct Record {
    pub function: String,
    pub file: String,
    pub line: usize,
}

impl View for Record {
    type V = RecordModel;

    open spec fn view(&self) -> RecordModel {
        RecordModel {
            function: self.function@,
            file: self.file@,
            line: self.line as nat,
        }
    }
}

impl Clone for Record {
    fn clone(&self) -> (r: Self)
        ensures
            r@ == self@,
    {
        Record {
            function: self.function.clone(),
            file: self.file.clone(),
            line: self.line,
        }
    }
}

impl PartialEq for Record {
    fn eq(&self, other: &Self) -> (r: bool) {
        self.function == other.function && self.file == other.file && self.line == other.line
    }
}

impl vstd::std_specs::cmp::PartialEqSpecImpl for Record {
    open spec fn obeys_eq_spec() -> bool {
        true
    }

    open spec fn eq_spec(&self, other: &Record) -> bool {
        self@ == other@
    }
}

/// Mathematical content of an [`Action`].
pub ghost enum ActionModel {
    Recursive(RecordModel),
    Delete(RecordModel),
}

/// A structural edit of the visible tree: remove every node equal to the
/// record together with its subtree (`Recursive`), or remove every node equal
/// to the record while promoting its children (`Delete`).
#[derive(Debug)]
pub enum Action {
    Recursive(Record),
    Delete(Record),
}

impl View for Action {
    type V = ActionModel;

    open spec fn view(&self) -> ActionModel {
        match self {
            Action::Recursive(r) => ActionModel::Recursive(r@),
            Action::Delete(r) => ActionModel::Delete(r@),
        }
    }
}

impl Clone for Action {
    fn clone(&self) -> (r: Self)
        ensures
            r@ == self@,
    {
        match self {
            Action::Recursive(rec) => Action::Recursive(rec.clone()),
            Action::Delete(rec) => Action::Delete(rec.clone()),
        }
    }
}

/// The action models of a sequence of actions, in order.
pub open spec fn action_models(s: Seq<Action>) -> Seq<ActionModel> {
    Seq::new(s.len(), |i: int| s[i]@)
}

/// Whether `c` is a decimal digit.
pub open spec fn is_digit(c: char) -> bool {
    48 <= c as u32 <= 57
}

/// The numeric value of a digit character.
pub open spec fn digit_val(c: char) -> nat {
    (c as u32 - 48) as nat
}

/// Whether `s` is a nonempty run of decimal digits.
pub open spec fn all_digits(s: Seq<char>) -> bool {
    s.len() > 0 && forall|i: int| 0 <= i < s.len() ==> is_digit(#[trigger] s[i])
}

/// The number denoted by a run of decimal digits, most significant first.
pub open spec fn digits_value(s: Seq<char>) -> nat
    decreases s.len(),
{
    if s.len() == 0 {
        0
    } else {
        digits_value(s.drop_last()) * 10 + digit_val(s.last())
    }
}

/// The digit character for a value below ten.
pub open spec fn digit_char(d: nat) -> char {
    if d == 0 {
        '0'
    } else if d == 1 {
        '1'
    } else if d == 2 {
        '2'
    } else if d == 3 {
        '3'
    } else if d == 4 {
        '4'
    } else if d == 5 {
        '5'
    } else if d == 6 {
        '6'
    } else if d == 7 {
        '7'
    } else if d == 8 {
        '8'
    } else {
        '9'
    }
}

/// The canonical decimal form of `n`, without leading zeros.
pub open spec fn spec_digits(n: nat) -> Seq<char>
    decreases n,
{
    if n < 10 {
        seq![digit_char(n)]
    } else {
        spec_digits(n / 10).push(digit_char(n % 10))
    }
}

/// Printing a number and reading the digits back gives the number again,
/// and the printed form consists of digits only.
pub proof fn lemma_digits_roundtrip(n: nat)
    ensures
        all_digits(spec_digits(n)),
        digits_value(spec_digits(n)) == n,
    decreases n,
{
    if n < 10 {
        let s = spec_digits(n);
        assert('0' as u32 == 48);
        assert(digit_val(digit_char(n)) == n);
        assert(s.len() == 1);
        assert(s.drop_last() =~= Seq::<char>::empty());
        assert(digits_value(Seq::<char>::empty()) == 0);
        assert(digits_value(s) == digits_value(s.drop_last()) * 10 + digit_val(s.last()));
    } else {
        lemma_digits_roundtrip(n / 10);
        let s = spec_digits(n);
        assert(s.drop_last() =~= spec_digits(n / 10));
        assert(s.last() == digit_char(n % 10));
        assert(digit_val(digit_char(n % 10)) == n % 10);
        assert(n == (n / 10) * 10 + n % 10) by (nonlinear_arith);
    }
}

/// A longer digit run denotes at least as large a number.
pub proof fn lemma_digits_value_prefix(s: Seq<char>, i: int)
    requires
        0 <= i <= s.len(),
    ensures
        digits_value(s) >= digits_value(s.take(i)),
    decreases s.len() - i,
{
    if i < s.len() {
        assert(s.take(i + 1).drop_last() =~= s.take(i));
        assert(digits_value(s.take(i + 1)) == digits_value(s.take(i)) * 10 + digit_val(
            s.take(i + 1).last(),
        ));
        lemma_digits_value_prefix(s, i + 1);
        assert(s.take(s.len() as int) =~= s);
    } else {
        assert(s.take(i) =~= s);
    }
}

/// First position at or after `from` where `c` occurs in `s`, or the length
/// of `s` when it does not occur.
pub open spec fn find_char(s: Seq<char>, c: char, from: nat) -> nat
    decreases s.len() - from,
{
    if from >= s.len() {
        s.len()
    } else if s[from as int] == c {
        from
    } else {
        find_char(s, c, (from + 1) as nat)
    }
}

/// Whether `c` is one of the ASCII whitespace characters that may separate
/// the function name from the `@` sign in a frame token.
pub open spec fn is_sep_space(c: char) -> bool {
    c == ' ' || c == '\t' || c == '\n' || c == '\x0B' || c == '\x0C' || c == '\r'
}

/// The parsed form of one frame token
/// `FUNCTION @FILE:LINE:COL: LASTLINE:LASTCOL`: the function name runs to
/// the first `@`, with one immediately preceding separator whitespace
/// character excluded when present (the canonical shape writes a space
/// there; the space-less form is accepted too); the file name runs to the
/// next `:`, and the four trailing fields are digit runs, of which only
/// `LINE` is kept and must fit a machine word. Malformed tokens parse to
/// `None`.
pub open spec fn spec_parse_token(s: Seq<char>) -> Option<RecordModel> {
    let a = find_char(s, '@', 0);
    let fl: int = if a >= 1 && is_sep_space(s[a as int - 1]) {
        a as int - 1
    } else {
        a as int
    };
    if fl == 0 || a >= s.len() {
        None
    } else {
        let rest = s.skip(a as int + 1);
        let f = find_char(rest, ':', 0);
        if f == 0 || f >= rest.len() {
            None
        } else {
            let tail = rest.skip(f as int + 1);
            let p1 = find_char(tail, ':', 0);
            let p2 = find_char(tail, ':', (p1 + 1) as nat);
            let p3 = find_char(tail, ':', (p2 + 1) as nat);
            if p3 >= tail.len() || find_char(tail, ':', (p3 + 1) as nat) < tail.len() {
                None
            } else if !(all_digits(tail.take(p1 as int)) && all_digits(
                tail.subrange(p1 as int + 1, p2 as int),
            ) && p2 + 2 <= p3 && tail[p2 as int + 1] == ' ' && all_digits(
                tail.subrange(p2 as int + 2, p3 as int),
            ) && all_digits(tail.skip(p3 as int + 1))) {
                None
            } else if digits_value(tail.take(p1 as int)) > usize::MAX {
                None
            } else {
                Some(
                    RecordModel {
                        function: s.take(fl),
                        file: rest.take(f as int),
                        line: digits_value(tail.take(p1 as int)),
                    },
                )
            }
        }
    }
}

/// The rendered display form of a record: `FILE:LINE    [FUNCTION]`.
pub open spec fn spec_render(r: RecordModel) -> Seq<char> {
    r.file + seq![':'] + spec_digits(r.line) + seq![' ', ' ', ' ', ' ', '['] + r.function + seq![
        ']',
    ]
}

/// The characters of `s`, as an indexable vector.
pub fn str_to_chars(s: &str) -> (v: Vec<char>)
    ensures
        v@ == s@,
{
    let n = s.unicode_len();
    let mut v: Vec<char> = Vec::new();
    let mut i: usize = 0;
    while i < n
        invariant
            n == s@.len(),
            i <= n,
            v@ =~= s@.take(i as int),
        decreases n - i,
    {
        v.push(s.get_char(i));
        proof {
            assert(v@ =~= s@.take(i + 1));
        }
        i = i + 1;
    }
    proof {
        assert(s@.take(n as int) =~= s@);
    }
    v
}

/// Relies on `std`'s `FromIterator<char> for String` (through
/// `Iterator::collect`): the collected string holds exactly the iterated
/// characters, in order.
#[verifier::external_body]
pub fn chars_to_string(v: &Vec<char>) -> (s: String)
    ensures
        s@ == v@,
{
    v.iter().collect()
}

/// First position at or after `from` where `c` occurs in `v`, or the length
/// of `v` when it does not occur.
pub fn find_char_in(v: &Vec<char>, c: char, from: usize) -> (idx: usize)
    requires
        from <= v@.len(),
    ensures
        idx == find_char(v@, c, from as nat),
        from <= idx <= v@.len(),
{
    let n = v.len();
    let mut i = from;
    while i < n && v[i] != c
        invariant
            n == v@.len(),
            from <= i <= n,
            find_char(v@, c, from as nat) == find_char(v@, c, i as nat),
        decreases n - i,
    {
        proof {
            assert(find_char(v@, c, i as nat) == find_char(v@, c, (i + 1) as nat));
        }
        i = i + 1;
    }
    i
}

/// Reads the digit run `v[from..to]` as a number, if it is one that fits a
/// machine word.
pub(crate) fn parse_usize(v: &Vec<char>, from: usize, to: usize) -> (r: Option<usize>)
    requires
        from <= to <= v@.len(),
    ensures
        ({
            let s = v@.subrange(from as int, to as int);
            &&& r is Some <==> (all_digits(s) && digits_value(s) <= usize::MAX)
            &&& (r matches Some(x) ==> x == digits_value(s))
        }),
{
    let ghost s = v@.subrange(from as int, to as int);
    if from == to {
        return None;
    }
    let mut acc: usize = 0;
    let mut i = from;
    while i < to
        invariant
            from <= i <= to <= v@.len(),
            s == v@.subrange(from as int, to as int),
            s.len() == to - from,
            all_digits(s.take(i - from)) || i == from,
            acc == digits_value(s.take(i - from)),
        decreases to - i,
    {
        let c = v[i];
        let u = c as u32;
        if !(48 <= u && u <= 57) {
            proof {
                assert(s[i - from] == c);
                assert(!is_digit(c));
                assert(!all_digits(s));
            }
            return None;
        }
        let d = (u - 48) as usize;
        proof {
            assert(s.take(i - from + 1).drop_last() =~= s.take(i - from));
            assert(s.take(i - from + 1).last() == c);
        }
        if acc > (usize::MAX - d) / 10 {
            proof {
                assert(digits_value(s.take(i - from + 1)) == acc * 10 + d);
                assert(acc * 10 + d > usize::MAX) by (nonlinear_arith)
                    requires
                        acc > (usize::MAX - d) / 10,
                        d < 10,
                ;
                lemma_digits_value_prefix(s, i - from + 1);
            }
            return None;
        }
        acc = acc * 10 + d;
        i = i + 1;
    }
    proof {
        assert(s.take(to - from) =~= s);
    }
    Some(acc)
}

/// Looking for a character in a suffix is looking for it in the whole
/// sequence from the cut point on.
pub proof fn lemma_find_char_shift(s: Seq<char>, c: char, k: nat, from: nat)
    requires
        k <= from <= s.len(),
    ensures
        find_char(s.skip(k as int), c, (from - k) as nat) == find_char(s, c, from) - k,
    decreases s.len() - from,
{
    if from >= s.len() {
    } else if s[from as int] == c {
    } else {
        lemma_find_char_shift(s, c, k, (from + 1) as nat);
    }
}

/// Parses one frame token `FUNCTION@FILE:LINE:COL: LASTLINE:LASTCOL` into a
/// record, or reports a malformed token with `None`.
/// Whether `c` may separate the function name from the `@` sign.
fn sep_space(c: char) -> (b: bool)
    ensures
        b == is_sep_space(c),
{
    c == ' ' || c == '\t' || c == '\n' || c == '\x0B' || c == '\x0C' || c == '\r'
}

#[verifier::rlimit(100)]
pub fn parse_token(s: &str) -> (r: Option<Record>)
    ensures
        r is Some <==> spec_parse_token(s@) is Some,
        r matches Some(rec) ==> Some(rec@) == spec_parse_token(s@),
{
    let v = str_to_chars(s);
    let n = v.len();
    let a = find_char_in(&v, '@', 0);
    if a == 0 || a >= n {
        return None;
    }
    let fl: usize = if sep_space(v[a - 1]) {
        a - 1
    } else {
        a
    };
    if fl == 0 {
        return None;
    }
    let ghost rest = s@.skip(a as int + 1);
    let fa = find_char_in(&v, ':', a + 1);
    proof {
        lemma_find_char_shift(s@, ':', (a + 1) as nat, (a + 1) as nat);
        assert(find_char(rest, ':', 0) == fa - (a + 1));
    }
    if fa == a + 1 || fa >= n {
        return None;
    }
    let ghost base = fa as int + 1;
    let ghost tail = s@.skip(base);
    proof {
        assert(tail =~= rest.skip((fa - (a + 1)) as int + 1));
    }
    let p1 = find_char_in(&v, ':', fa + 1);
    proof {
        lemma_find_char_shift(s@, ':', base as nat, (fa + 1) as nat);
        assert(find_char(tail, ':', 0) == p1 - base);
    }
    let p2: usize;
    if p1 < n {
        p2 = find_char_in(&v, ':', p1 + 1);
        proof {
            lemma_find_char_shift(s@, ':', base as nat, (p1 + 1) as nat);
            assert(find_char(tail, ':', (p1 - base + 1) as nat) == p2 - base);
        }
    } else {
        p2 = n;
        proof {
            assert(find_char(tail, ':', (p1 - base + 1) as nat) == tail.len());
        }
    }
    let p3: usize;
    if p2 < n {
        p3 = find_char_in(&v, ':', p2 + 1);
        proof {
            lemma_find_char_shift(s@, ':', base as nat, (p2 + 1) as nat);
            assert(find_char(tail, ':', (p2 - base + 1) as nat) == p3 - base);
        }
    } else {
        p3 = n;
        proof {
            assert(find_char(tail, ':', (p2 - base + 1) as nat) == tail.len());
        }
    }
    if p3 >= n {
        return None;
    }
    let p4 = find_char_in(&v, ':', p3 + 1);
    proof {
        lemma_find_char_shift(s@, ':', base as nat, (p3 + 1) as nat);
        assert(find_char(tail, ':', (p3 - base + 1) as nat) == p4 - base);
    }
    if p4 < n {
        return None;
    }
    if !(p2 < p3 && p3 - p2 >= 2) {
        return None;
    }
    if v[p2 + 1] != ' ' {
        return None;
    }
    proof {
        assert(tail[p2 - base + 1] == s@[p2 as int + 1]);
        assert(tail.take(p1 - base) =~= s@.subrange(base, p1 as int));
        assert(tail.subrange(p1 - base + 1, p2 - base) =~= s@.subrange(p1 as int + 1, p2 as int));
        assert(tail.subrange(p2 - base + 2, p3 - base) =~= s@.subrange(p2 as int + 2, p3 as int));
        assert(tail.skip(p3 - base + 1) =~= s@.subrange(p3 as int + 1, n as int));
    }
    let line_opt = parse_usize(&v, fa + 1, p1);
    let col_ok = check_digits(&v, p1 + 1, p2);
    let ll_ok = check_digits(&v, p2 + 2, p3);
    let cc_ok = check_digits(&v, p3 + 1, n);
    match line_opt {
        None => None,
        Some(line) => {
            if !(col_ok && ll_ok && cc_ok) {
                None
            } else {
                let function = chars_to_string(&slice_chars(&v, 0, fl));
                let file = chars_to_string(&slice_chars(&v, a + 1, fa));
                proof {
                    assert(v@.subrange(0, fl as int) =~= s@.take(fl as int));
                    assert(v@.subrange(a as int + 1, fa as int) =~= rest.take((fa - (a
                        + 1)) as int));
                }
                Some(Record { function, file, line })
            }
        },
    }
}

/// Whether `v[from..to]` is a nonempty digit run.
fn check_digits(v: &Vec<char>, from: usize, to: usize) -> (b: bool)
    requires
        from <= v@.len(),
        to <= v@.len(),
    ensures
        b == (from < to && all_digits(v@.subrange(from as int, to as int))),
{
    if from >= to {
        return false;
    }
    let ghost s = v@.subrange(from as int, to as int);
    let mut i = from;
    while i < to
        invariant
            from <= i <= to <= v@.len(),
            s == v@.subrange(from as int, to as int),
            forall|k: int| 0 <= k < i - from ==> is_digit(#[trigger] s[k]),
        decreases to - i,
    {
        let u = v[i] as u32;
        if !(48 <= u && u <= 57) {
            proof {
                assert(s[i - from] == v@[i as int]);
            }
            return false;
        }
        i = i + 1;
    }
    true
}

/// Appends the characters of `s` to `out`.
fn push_chars(out: &mut Vec<char>, s: &str)
    ensures
        final(out)@ == old(out)@ + s@,
{
    let n = s.unicode_len();
    let mut i: usize = 0;
    while i < n
        invariant
            n == s@.len(),
            i <= n,
            out@ =~= old(out)@ + s@.take(i as int),
        decreases n - i,
    {
        out.push(s.get_char(i));
        proof {
            assert(out@ =~= old(out)@ + s@.take(i + 1));
        }
        i = i + 1;
    }
    proof {
        assert(s@.take(n as int) =~= s@);
    }
}

/// Appends the decimal form of `n` to `out`.
pub(crate) fn push_digits(out: &mut Vec<char>, n: usize)
    ensures
        final(out)@ == old(out)@ + spec_digits(n as nat),
    decreases n,
{
    if n < 10 {
        let c = digit_char_exec(n);
        out.push(c);
        proof {
            assert(out@ =~= old(out)@ + spec_digits(n as nat));
        }
    } else {
        push_digits(out, n / 10);
        let c = digit_char_exec(n % 10);
        out.push(c);
        proof {
            assert(out@ =~= old(out)@ + spec_digits(n as nat));
        }
    }
}

/// The digit character for a value below ten.
fn digit_char_exec(d: usize) -> (c: char)
    requires
        d < 10,
    ensures
        c == digit_char(d as nat),
{
    match d {
        0 => '0',
        1 => '1',
        2 => '2',
        3 => '3',
        4 => '4',
        5 => '5',
        6 => '6',
        7 => '7',
        8 => '8',
        _ => '9',
    }
}

impl Record {
    /// The rendered display form `FILE:LINE    [FUNCTION]` of this record,
    /// as shown in the tree and matched against relevance patterns.
    pub fn display_string(&self) -> (s: String)
        ensures
            s@ == spec_render(self@),
    {
        let mut out: Vec<char> = Vec::new();
        push_chars(&mut out, self.file.as_str());
        out.push(':');
        push_digits(&mut out, self.line);
        out.push(' ');
        out.push(' ');
        out.push(' ');
        out.push(' ');
        out.push('[');
        push_chars(&mut out, self.function.as_str());
        out.push(']');
        proof {
            assert(out@ =~= spec_render(self@));
        }
        chars_to_string(&out)
    }
}

/// `find_char` lands on `k` when `c` first occurs there.
pub proof fn lemma_find_char_at(s: Seq<char>, c: char, from: nat, k: int)
    requires
        from <= k < s.len(),
        s[k] == c,
        forall|j: int| from <= j < k ==> s[j] != c,
    ensures
        find_char(s, c, from) == k,
    decreases k - from,
{
    if from < k {
        lemma_find_char_at(s, c, (from + 1) as nat, k);
    }
}

/// The characters `v[from..to]`, copied out.
pub fn slice_chars(v: &Vec<char>, from: usize, to: usize) -> (r: Vec<char>)
    requires
        from <= to <= v@.len(),
    ensures
        r@ == v@.subrange(from as int, to as int),
{
    let mut r: Vec<char> = Vec::new();
    let mut i = from;
    while i < to
        invariant
            from <= i <= to <= v@.len(),
            r@ =~= v@.subrange(from as int, i as int),
        decreases to - i,
    {
        r.push(v[i]);
        proof {
            assert(r@ =~= v@.subrange(from as int, i + 1));
        }
        i = i + 1;
    }
    r
}

} // verus!
