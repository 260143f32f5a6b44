//! Text as the panels read and write it: searching, case folding, numbers.
use vstd::prelude::*;
use vstd::string::{StrSliceExecFns, StringExecFns};

verus! {

/// What `str::to_lowercase` gives for a text: Unicode's lowercase mapping.
pub uninterp spec fn lowercase(s: Seq<char>) -> Seq<char>;

/// What `str::to_uppercase` gives for a text: Unicode's uppercase mapping.
pub uninterp spec fn uppercase(s: Seq<char>) -> Seq<char>;

/// What `char::to_uppercase` yields for one character.
pub uninterp spec fn uppercase_char(c: char) -> Seq<char>;

/// `str::to_lowercase`: the text in lowercase, as Unicode defines it. Each
/// character becomes one or more characters, so the result is empty exactly
/// when the text is.
#[verifier::external_body]
pub(crate) fn to_lowercase(s: &str) -> (lower: String)
    ensures
        lower@ == lowercase(s@),
        lower@.len() == 0 <==> s@.len() == 0,
{
    s.to_lowercase()
}

/// `str::to_uppercase`: the text in uppercase, as Unicode defines it.
#[verifier::external_body]
pub(crate) fn to_uppercase(s: &str) -> (upper: String)
    ensures
        upper@ == uppercase(s@),
{
    s.to_uppercase()
}

/// `char::to_uppercase`: the characters one character becomes in uppercase.
/// An ASCII lowercase letter becomes its capital; any other ASCII
/// character has no uppercase mapping and stays as it is.
#[verifier::external_body]
pub(crate) fn char_to_uppercase(c: char) -> (upper: Vec<char>)
    ensures
        upper@ == uppercase_char(c),
        'a' <= c <= 'z' ==> upper@ == seq![((c as u32) - 32) as char],
        (c as u32) < 128 && !('a' <= c <= 'z') ==> upper@ == seq![c],
{
    c.to_uppercase().collect()
}

/// `String`'s `FromIterator<char>`: the characters, in order, as one text.
#[verifier::external_body]
pub(crate) fn string_from_chars(chars: &Vec<char>) -> (text: String)
    ensures
        text@ == chars@,
{
    chars.iter().collect()
}

/// The characters of a text, in order.
pub fn chars_of(s: &str) -> (chars: Vec<char>)
    ensures
        chars@ == s@,
{
    let n = s.unicode_len();
    let mut chars: Vec<char> = Vec::new();
    let mut i: usize = 0;
    while i < n
        invariant
            n == s@.len(),
            0 <= i <= n,
            chars@ == s@.take(i as int),
        decreases n - i,
    {
        chars.push(s.get_char(i));
        i = i + 1;
        assert(chars@ =~= s@.take(i as int));
    }
    assert(s@.take(n as int) =~= s@);
    chars
}

/// Whether `pat` occurs in `s` starting at `at`.
pub open spec fn occurs_at(s: Seq<char>, pat: Seq<char>, at: int) -> bool {
    0 <= at && at + pat.len() <= s.len() && s.subrange(at, at + pat.len()) == pat
}

/// Whether `pat` occurs anywhere in `s` (the empty text occurs everywhere).
pub open spec fn contains_text(s: Seq<char>, pat: Seq<char>) -> bool {
    exists|at: int| occurs_at(s, pat, at)
}

/// A text holds a pattern exactly when it is the pattern with something
/// (perhaps nothing) before it and something after it.
pub proof fn law_holding_is_splitting(s: Seq<char>, pat: Seq<char>)
    ensures
        contains_text(s, pat) <==> exists|x: Seq<char>, y: Seq<char>| s == x + pat + y,
{
    if contains_text(s, pat) {
        let at = choose|at: int| occurs_at(s, pat, at);
        let x = s.take(at);
        let y = s.skip(at + pat.len());
        assert(s =~= x + pat + y);
    }
    if exists|x: Seq<char>, y: Seq<char>| s == x + pat + y {
        let (x, y) = choose|x: Seq<char>, y: Seq<char>| s == x + pat + y;
        assert(s.subrange(x.len() as int, (x.len() + pat.len()) as int) =~= pat);
        assert(occurs_at(s, pat, x.len() as int));
    }
}

fn occurs_at_exec(s: &Vec<char>, pat: &Vec<char>, at: usize) -> (found: bool)
    requires
        at + pat.len() <= s.len(),
    ensures
        found == occurs_at(s@, pat@, at as int),
{
    let mut k: usize = 0;
    while k < pat.len()
        invariant
            at + pat.len() <= s.len(),
            0 <= k <= pat@.len(),
            forall|j: int| 0 <= j < k ==> s@[at + j] == pat@[j],
        decreases pat@.len() - k,
    {
        if s[at + k] != pat[k] {
            assert(s@.subrange(at as int, at + pat@.len())[k as int] != pat@[k as int]);
            return false;
        }
        k = k + 1;
    }
    assert(s@.subrange(at as int, at + pat@.len()) =~= pat@);
    true
}

/// Whether `pat` occurs in `s`, as `str::contains` answers for a text pattern.
pub fn contains(s: &str, pat: &str) -> (found: bool)
    ensures
        found == contains_text(s@, pat@),
{
    let sc = chars_of(s);
    let pc = chars_of(pat);
    if pc.len() > sc.len() {
        assert forall|at: int| !occurs_at(s@, pat@, at) by {}
        return false;
    }
    if pc.len() == 0 {
        assert(s@.subrange(0, 0) =~= pat@);
        assert(occurs_at(s@, pat@, 0));
        return true;
    }
    let last = sc.len() - pc.len();
    let mut at: usize = 0;
    while at <= last
        invariant
            sc@ == s@,
            pc@ == pat@,
            last == s@.len() - pat@.len(),
            last < usize::MAX,
            last + pc.len() == sc.len(),
            0 <= at <= last + 1,
            forall|j: int| 0 <= j < at ==> !occurs_at(s@, pat@, j),
        decreases last + 1 - at,
    {
        if occurs_at_exec(&sc, &pc, at) {
            return true;
        }
        at = at + 1;
    }
    assert forall|j: int| !occurs_at(s@, pat@, j) by {
        if 0 <= j < at {
        }
    }
    false
}

/// Whether two texts are the same, character for character.
pub fn same_text(a: &str, b: &str) -> (same: bool)
    ensures
        same == (a@ == b@),
{
    let ac = chars_of(a);
    let bc = chars_of(b);
    if ac.len() != bc.len() {
        return false;
    }
    let found = occurs_at_exec(&ac, &bc, 0);
    assert(a@.subrange(0, b@.len() as int) =~= a@);
    found
}

/// Whether `s` begins with `prefix`.
pub open spec fn has_prefix(s: Seq<char>, prefix: Seq<char>) -> bool {
    prefix.len() <= s.len() && s.take(prefix.len() as int) == prefix
}

/// Whether `s` begins with `prefix`, as `str::starts_with` answers.
pub fn starts_with(s: &str, prefix: &str) -> (found: bool)
    ensures
        found == has_prefix(s@, prefix@),
{
    let sc = chars_of(s);
    let pc = chars_of(prefix);
    if pc.len() > sc.len() {
        return false;
    }
    let found = occurs_at_exec(&sc, &pc, 0);
    assert(s@.subrange(0, prefix@.len() as int) =~= s@.take(prefix@.len() as int));
    found
}

/// The characters a digit from 0 to 9 is written with.
pub open spec fn digit_char(d: nat) -> char {
    if d == 0 {
        '0'
    } else if d == 1 {
        '1'
    } else if d == 2 {
        '2'
    } else if d == 3 {
        '3'
    } else if d == 4 {
        '4'
    } else if d == 5 {
        '5'
    } else if d == 6 {
        '6'
    } else if d == 7 {
        '7'
    } else if d == 8 {
        '8'
    } else {
        '9'
    }
}

/// A number written in decimal, without leading zeros.
pub open spec fn decimal(n: nat) -> Seq<char>
    decreases n,
{
    if n < 10 {
        seq![digit_char(n)]
    } else {
        decimal(n / 10).push(digit_char(n % 10))
    }
}

fn digit(d: u64) -> (c: char)
    requires
        d < 10,
    ensures
        c == digit_char(d as nat),
{
    if d == 0 {
        '0'
    } else if d == 1 {
        '1'
    } else if d == 2 {
        '2'
    } else if d == 3 {
        '3'
    } else if d == 4 {
        '4'
    } else if d == 5 {
        '5'
    } else if d == 6 {
        '6'
    } else if d == 7 {
        '7'
    } else if d == 8 {
        '8'
    } else {
        '9'
    }
}

fn decimal_chars(n: u64) -> (chars: Vec<char>)
    ensures
        chars@ == decimal(n as nat),
    decreases n,
{
    if n < 10 {
        let mut chars = Vec::new();
        chars.push(digit(n));
        assert(chars@ =~= decimal(n as nat));
        chars
    } else {
        let mut chars = decimal_chars(n / 10);
        chars.push(digit(n % 10));
        chars
    }
}

/// A number written in decimal, as `to_string` writes it.
pub fn decimal_string(n: u64) -> (text: String)
    ensures
        text@ == decimal(n as nat),
{
    string_from_chars(&decimal_chars(n))
}

/// Joins two texts.
pub fn join(a: &str, b: &str) -> (text: String)
    ensures
        text@ == a@ + b@,
{
    let mut text = String::from_str(a);
    text.append(b);
    text
}

/// Whether `a` and `b` agree on their first `n` characters.
pub open spec fn agree_upto(a: Seq<char>, b: Seq<char>, n: int) -> bool {
    0 <= n <= a.len() && n <= b.len() && forall|j: int| 0 <= j < n ==> a[j] == b[j]
}

/// Whether `a` and `b` first part at `n`: they agree before it, and there
/// `a` ends while `b` goes on, or `a` has the smaller character.
pub open spec fn parts_before(a: Seq<char>, b: Seq<char>, n: int) -> bool {
    &&& agree_upto(a, b, n)
    &&& n < b.len()
    &&& (n == a.len() || (a[n] as int) < (b[n] as int))
}

/// Whether `a` sorts before `b` in the order of `str`'s `Ord`: by the first
/// character where they differ, a text before any longer text it begins.
/// (UTF-8 keeps the order of code points, so comparing the bytes and
/// comparing the characters agree.)
pub open spec fn text_before(a: Seq<char>, b: Seq<char>) -> bool {
    exists|n: int| parts_before(a, b, n)
}

/// How one text sorts against another.
#[derive(Clone, Copy, Debug, PartialEq, Eq, Structural)]
pub enum Precedence {
    Before,
    Same,
    After,
}

/// The precedence of `a` against `b` under [`text_before`].
pub open spec fn precedence(a: Seq<char>, b: Seq<char>) -> Precedence {
    if text_before(a, b) {
        Precedence::Before
    } else if a == b {
        Precedence::Same
    } else {
        Precedence::After
    }
}

proof fn lemma_parts_at_most_once(a: Seq<char>, b: Seq<char>, n: int, m: int)
    requires
        parts_before(a, b, n),
        agree_upto(a, b, m),
        m < b.len(),
    ensures
        m <= n,
{
    if m > n {
        assert(a[n] == b[n]);
    }
}

/// Two texts that differ have a first place where one parts before the other.
proof fn lemma_first_difference(a: Seq<char>, b: Seq<char>, n: int)
    requires
        a != b,
        agree_upto(a, b, n),
    ensures
        text_before(a, b) || text_before(b, a),
    decreases a.len() + b.len() - 2 * n,
{
    if n == a.len() && n == b.len() {
        assert(a =~= b);
    } else if n == a.len() {
        assert(parts_before(a, b, n));
    } else if n == b.len() {
        assert(parts_before(b, a, n));
    } else if a[n] == b[n] {
        lemma_first_difference(a, b, n + 1);
    } else if (a[n] as int) < (b[n] as int) {
        assert(parts_before(a, b, n));
    } else {
        assert(parts_before(b, a, n));
    }
}

/// [`text_before`] is a strict total order on texts.
pub proof fn lemma_text_order(a: Seq<char>, b: Seq<char>, c: Seq<char>)
    ensures
        !text_before(a, a),
        text_before(a, b) ==> !text_before(b, a),
        text_before(a, b) || a == b || text_before(b, a),
        text_before(a, b) && text_before(b, c) ==> text_before(a, c),
{
    if text_before(a, a) {
        let n = choose|n: int| parts_before(a, a, n);
        assert(false);
    }
    if text_before(a, b) && text_before(b, a) {
        let n = choose|n: int| parts_before(a, b, n);
        let m = choose|m: int| parts_before(b, a, m);
        lemma_parts_at_most_once(a, b, n, m);
        lemma_parts_at_most_once(b, a, m, n);
        assert(n == m);
    }
    if a != b {
        lemma_first_difference(a, b, 0);
    }
    if text_before(a, b) && text_before(b, c) {
        let n = choose|n: int| parts_before(a, b, n);
        let m = choose|m: int| parts_before(b, c, m);
        if n < m {
            assert(parts_before(a, c, n));
        } else if m < n {
            assert(parts_before(a, c, m));
        } else {
            assert(parts_before(a, c, n));
        }
    }
}

/// Whether `a` comes before `b`: chars compare by their Unicode scalar
/// values.
fn char_before(a: char, b: char) -> (before: bool)
    ensures
        before == ((a as int) < (b as int)),
{
    a < b
}

/// How `a` sorts against `b`, as `str` compares them.
pub fn compare_texts(a: &str, b: &str) -> (order: Precedence)
    ensures
        order == precedence(a@, b@),
{
    let ac = chars_of(a);
    let bc = chars_of(b);
    let mut i: usize = 0;
    while i < ac.len() && i < bc.len()
        invariant
            ac@ == a@,
            bc@ == b@,
            agree_upto(a@, b@, i as int),
        decreases ac@.len() - i,
    {
        if ac[i] != bc[i] {
            proof {
                lemma_text_order(a@, b@, b@);
                assert(a@[i as int] != b@[i as int]);
            }
            if char_before(ac[i], bc[i]) {
                assert(parts_before(a@, b@, i as int));
                return Precedence::Before;
            } else {
                assert(parts_before(b@, a@, i as int));
                return Precedence::After;
            }
        }
        i = i + 1;
    }
    proof {
        lemma_text_order(a@, b@, b@);
    }
    if ac.len() < bc.len() {
        assert(parts_before(a@, b@, i as int));
        Precedence::Before
    } else if bc.len() < ac.len() {
        assert(parts_before(b@, a@, i as int));
        Precedence::After
    } else {
        assert(a@ =~= b@);
        Precedence::Same
    }
}

} // verus!
