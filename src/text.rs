use vstd::prelude::*;
use vstd::std_specs::iter::IteratorSpec;

verus! {

/// `p` occurs in `s` at position `i`.
pub open spec fn starts_at(s: Seq<char>, i: int, p: Seq<char>) -> bool {
    0 <= i && i + p.len() <= s.len() && s.subrange(i, i + p.len()) == p
}

/// Some terminator of `terms` occurs in `s` at position `i`.
pub open spec fn any_at(s: Seq<char>, i: int, terms: Seq<Seq<char>>) -> bool {
    exists|k: int| 0 <= k < terms.len() && starts_at(s, i, #[trigger] terms[k])
}

/// The HTML entity form of one character: `<` and `>` become entities.
pub open spec fn escape_char(c: char) -> Seq<char> {
    if c == '<' {
        seq!['&', 'l', 't', ';']
    } else if c == '>' {
        seq!['&', 'g', 't', ';']
    } else {
        seq![c]
    }
}

/// A run of characters with `<` and `>` put in entity form.
pub open spec fn escape(s: Seq<char>) -> Seq<char>
    decreases s.len(),
{
    if s.len() == 0 {
        Seq::empty()
    } else {
        escape(s.drop_last()) + escape_char(s.last())
    }
}

/// The decimal digit for `d < 10`.
pub open spec fn digit(d: nat) -> char {
    if d == 0 { '0' } else if d == 1 { '1' } else if d == 2 { '2' } else if d == 3 { '3' }
    else if d == 4 { '4' } else if d == 5 { '5' } else if d == 6 { '6' } else if d == 7 { '7' }
    else if d == 8 { '8' } else { '9' }
}

/// The decimal notation of `n`, without leading zeros.
pub open spec fn decimal(n: nat) -> Seq<char>
    decreases n,
{
    if n < 10 {
        seq![digit(n)]
    } else {
        decimal(n / 10).push(digit(n % 10))
    }
}

/// A white-space character: one of the 25 code points of Unicode's White_Space property
/// (tab to carriage return, space, next line, no-break space, ogham space mark, the
/// spaces from en quad to hair space, line and paragraph separators, narrow no-break
/// space, medium mathematical space and ideographic space).
pub open spec fn is_blank(c: char) -> bool {
    c == '\u{9}'
        || c == '\u{a}'
        || c == '\u{b}'
        || c == '\u{c}'
        || c == '\u{d}'
        || c == '\u{20}'
        || c == '\u{85}'
        || c == '\u{a0}'
        || c == '\u{1680}'
        || c == '\u{2000}'
        || c == '\u{2001}'
        || c == '\u{2002}'
        || c == '\u{2003}'
        || c == '\u{2004}'
        || c == '\u{2005}'
        || c == '\u{2006}'
        || c == '\u{2007}'
        || c == '\u{2008}'
        || c == '\u{2009}'
        || c == '\u{200a}'
        || c == '\u{2028}'
        || c == '\u{2029}'
        || c == '\u{202f}'
        || c == '\u{205f}'
        || c == '\u{3000}'
}

/// Whether `c` is a white-space character.
pub fn blank(c: char) -> (r: bool)
    ensures
        r == is_blank(c),
{
    c == '\u{9}'
        || c == '\u{a}'
        || c == '\u{b}'
        || c == '\u{c}'
        || c == '\u{d}'
        || c == '\u{20}'
        || c == '\u{85}'
        || c == '\u{a0}'
        || c == '\u{1680}'
        || c == '\u{2000}'
        || c == '\u{2001}'
        || c == '\u{2002}'
        || c == '\u{2003}'
        || c == '\u{2004}'
        || c == '\u{2005}'
        || c == '\u{2006}'
        || c == '\u{2007}'
        || c == '\u{2008}'
        || c == '\u{2009}'
        || c == '\u{200a}'
        || c == '\u{2028}'
        || c == '\u{2029}'
        || c == '\u{202f}'
        || c == '\u{205f}'
        || c == '\u{3000}'
}

/// Whether `p` occurs in `s` at position `i`.
pub fn starts_with_at(s: &Vec<char>, i: usize, p: &str) -> (r: bool)
    ensures
        r == starts_at(s@, i as int, p@),
{
    let n = p.unicode_len();
    if i > s.len() || n > s.len() - i {
        return false;
    }
    let end = i + n;
    let mut k: usize = 0;
    while k < n
        invariant
            n == p@.len(),
            end == i + n,
            i + n <= s@.len(),
            k <= n,
            forall|j: int| 0 <= j < k ==> s@[i + j] == p@[j],
        decreases n - k,
    {
        if s[i + k] != p.get_char(k) {
            assert(s@.subrange(i as int, i + n)[k as int] != p@[k as int]);
            return false;
        }
        k = k + 1;
    }
    assert(s@.subrange(i as int, i + n) =~= p@);
    true
}

/// The character sequences of a slice of strings.
pub open spec fn views(terms: Seq<&str>) -> Seq<Seq<char>> {
    terms.map_values(|t: &str| t@)
}

/// Whether some terminator of `terms` occurs in `s` at position `i`.
pub fn any_with_at(s: &Vec<char>, i: usize, terms: &[&str]) -> (r: bool)
    ensures
        r == any_at(s@, i as int, views(terms@)),
{
    let mut k: usize = 0;
    while k < terms.len()
        invariant
            k <= terms@.len(),
            forall|j: int| 0 <= j < k ==> !starts_at(s@, i as int, #[trigger] views(terms@)[j]),
        decreases terms@.len() - k,
    {
        if starts_with_at(s, i, terms[k]) {
            assert(starts_at(s@, i as int, views(terms@)[k as int]));
            return true;
        }
        k = k + 1;
    }
    false
}

/// Appends the escaped form of `c` to `out`.
pub fn push_escaped(out: &mut Vec<char>, c: char)
    ensures
        final(out)@ == old(out)@ + escape_char(c),
{
    if c == '<' {
        out.push('&');
        out.push('l');
        out.push('t');
        out.push(';');
    } else if c == '>' {
        out.push('&');
        out.push('g');
        out.push('t');
        out.push(';');
    } else {
        out.push(c);
    }
    assert(final(out)@ =~= old(out)@ + escape_char(c));
}

/// Appends the decimal notation of `n` to `out`.
pub fn push_decimal(out: &mut Vec<char>, n: usize)
    ensures
        final(out)@ == old(out)@ + decimal(n as nat),
    decreases n,
{
    if n >= 10 {
        push_decimal(out, n / 10);
    }
    let d = n % 10;
    let c = if d == 0 { '0' } else if d == 1 { '1' } else if d == 2 { '2' } else if d == 3 { '3' }
        else if d == 4 { '4' } else if d == 5 { '5' } else if d == 6 { '6' } else if d == 7 { '7' }
        else if d == 8 { '8' } else { '9' };
    out.push(c);
    assert(final(out)@ =~= old(out)@ + decimal(n as nat));
}

/// Relies on `FromIterator<char>` for `String`: the string holds exactly the given characters.
#[verifier::external_body]
pub fn string_of(v: Vec<char>) -> (r: String)
    ensures
        r@ == v@,
{
    v.into_iter().collect()
}

/// The characters of `s`, in order.
pub fn chars_of(s: &str) -> (r: Vec<char>)
    ensures
        r@ == s@,
{
    broadcast use vstd::string::axiom_spec_iter, vstd::string::next_postcondition;
    let mut it = s.chars();
    let mut out: Vec<char> = Vec::new();
    assert(it.remaining() == s@);
    loop
        invariant
            it.obeys_prophetic_iter_laws(),
            out@ + it.remaining() == s@,
            it.decrease() is Some,
        ensures
            out@ == s@,
        decreases it.decrease()->0,
    {
        let ghost before = out@;
        match it.next() {
            Some(c) => {
                out.push(c);
                assert(out@ + it.remaining() =~= before + (seq![c] + it.remaining()));
            },
            None => {
                assert(it.remaining().len() == 0);
                assert(out@ =~= out@ + it.remaining());
                break;
            },
        }
    }
    out
}


/// The length of the first terminator of `terms`, from index `k` on, that occurs in `s`
/// at `i`, or zero when none does.
pub open spec fn term_skip(s: Seq<char>, i: int, terms: Seq<Seq<char>>, k: int) -> int
    decreases terms.len() - k,
{
    if k < 0 || k >= terms.len() {
        0
    } else if starts_at(s, i, terms[k]) {
        terms[k].len() as int
    } else {
        term_skip(s, i, terms, k + 1)
    }
}

/// How far skipping a terminator at `i` advances: the length of the first terminator of
/// `terms`, in their order, that occurs there, or zero.
pub open spec fn skipped(s: Seq<char>, i: int, terms: Seq<Seq<char>>) -> int {
    term_skip(s, i, terms, 0)
}

/// The first position at or after `i` where a terminator of `terms` occurs, or the end of `s`.
pub open spec fn first_stop(s: Seq<char>, i: int, terms: Seq<Seq<char>>) -> int
    decreases s.len() - i,
{
    if i >= s.len() {
        s.len() as int
    } else if any_at(s, i, terms) {
        i
    } else {
        first_stop(s, i + 1, terms)
    }
}

/// The stop lies between `i` and the end, and a terminator occurs there unless it is the end.
pub proof fn lemma_first_stop_bounds(s: Seq<char>, i: int, terms: Seq<Seq<char>>)
    requires
        0 <= i <= s.len(),
    ensures
        i <= first_stop(s, i, terms) <= s.len(),
        first_stop(s, i, terms) < s.len() ==> any_at(s, first_stop(s, i, terms), terms),
    decreases s.len() - i,
{
    if i < s.len() && !any_at(s, i, terms) {
        lemma_first_stop_bounds(s, i + 1, terms);
    }
}

/// Finds `first_stop(s, i, terms)`.
pub fn find_stop(s: &Vec<char>, i: usize, terms: &[&str]) -> (r: usize)
    requires
        i <= s@.len(),
    ensures
        r as int == first_stop(s@, i as int, views(terms@)),
        i <= r <= s@.len(),
{
    let mut j = i;
    while j < s.len()
        invariant
            i <= j <= s@.len(),
            first_stop(s@, j as int, views(terms@)) == first_stop(s@, i as int, views(terms@)),
        decreases s@.len() - j,
    {
        if any_with_at(s, j, terms) {
            return j;
        }
        j = j + 1;
    }
    j
}

/// Appends the escaped form of `s[from..to]` to `out`.
pub fn push_escaped_range(out: &mut Vec<char>, s: &Vec<char>, from: usize, to: usize)
    requires
        from <= to <= s@.len(),
    ensures
        final(out)@ == old(out)@ + escape(s@.subrange(from as int, to as int)),
{
    let mut k = from;
    while k < to
        invariant
            from <= k <= to <= s@.len(),
            out@ == old(out)@ + escape(s@.subrange(from as int, k as int)),
        decreases to - k,
    {
        proof {
            let a = s@.subrange(from as int, k as int);
            let b = s@.subrange(from as int, k + 1);
            assert(b.drop_last() =~= a);
            assert(b.last() == s@[k as int]);
        }
        push_escaped(out, s[k]);
        assert(out@ =~= old(out)@ + escape(s@.subrange(from as int, k + 1)));
        k = k + 1;
    }
}

/// The escaped form of `s`.
pub fn escaped(s: &Vec<char>) -> (r: Vec<char>)
    ensures
        r@ == escape(s@),
{
    let mut out: Vec<char> = Vec::new();
    push_escaped_range(&mut out, s, 0, s.len());
    assert(s@.subrange(0, s@.len() as int) =~= s@);
    out
}

/// A copy of `s[from..to]`.
pub fn copy_range(s: &Vec<char>, from: usize, to: usize) -> (r: Vec<char>)
    requires
        from <= to <= s@.len(),
    ensures
        r@ == s@.subrange(from as int, to as int),
{
    let mut out: Vec<char> = Vec::new();
    let mut k = from;
    while k < to
        invariant
            from <= k <= to <= s@.len(),
            out@ == s@.subrange(from as int, k as int),
        decreases to - k,
    {
        out.push(s[k]);
        assert(out@ =~= s@.subrange(from as int, k + 1));
        k = k + 1;
    }
    out
}

/// A one-character pattern occurs at `i` exactly when that character stands there.
pub proof fn lemma_starts_at_one(s: Seq<char>, i: int, c: char)
    ensures
        starts_at(s, i, seq![c]) == (0 <= i < s.len() && s[i] == c),
{
    if 0 <= i < s.len() && s[i] == c {
        assert(s.subrange(i, i + 1) =~= seq![c]);
    }
    if starts_at(s, i, seq![c]) {
        assert(s.subrange(i, i + 1)[0] == s[i]);
    }
}

/// The first position at or after `i` that holds no blank, or the end of `s`.
pub open spec fn blank_end(s: Seq<char>, i: int) -> int
    decreases s.len() - i,
{
    if i >= s.len() || !is_blank(s[i]) {
        i
    } else {
        blank_end(s, i + 1)
    }
}

/// Going down from `j` to no lower than `lo`, the position after the last non-blank.
pub open spec fn blank_start(s: Seq<char>, lo: int, j: int) -> int
    decreases j - lo,
{
    if j <= lo || !is_blank(s[j - 1]) {
        j
    } else {
        blank_start(s, lo, j - 1)
    }
}

/// `s` without its leading and trailing white space.
pub open spec fn trim(s: Seq<char>) -> Seq<char> {
    s.subrange(blank_end(s, 0), blank_start(s, blank_end(s, 0), s.len() as int))
}

/// The escaped form of `s` without its leading and trailing white space.
pub fn trim_escaped(s: &Vec<char>) -> (r: Vec<char>)
    ensures
        r@ == escape(trim(s@)),
{
    let mut a: usize = 0;
    while a < s.len() && blank(s[a])
        invariant
            a <= s@.len(),
            blank_end(s@, a as int) == blank_end(s@, 0),
        decreases s@.len() - a,
    {
        a = a + 1;
    }
    let mut b: usize = s.len();
    while b > a && blank(s[b - 1])
        invariant
            a <= b <= s@.len(),
            a == blank_end(s@, 0),
            blank_start(s@, a as int, b as int) == blank_start(s@, a as int, s@.len() as int),
        decreases b - a,
    {
        b = b - 1;
    }
    let mut out: Vec<char> = Vec::new();
    push_escaped_range(&mut out, s, a, b);
    out
}

/// `s` ends with `suffix`.
pub open spec fn ends_with(s: Seq<char>, suffix: Seq<char>) -> bool {
    suffix.len() <= s.len() && s.subrange(s.len() - suffix.len(), s.len() as int) == suffix
}

/// Whether `s` ends with `suffix`.
pub fn ends_with_chars(s: &Vec<char>, suffix: &str) -> (r: bool)
    ensures
        r == ends_with(s@, suffix@),
{
    let n = suffix.unicode_len();
    if n > s.len() {
        return false;
    }
    starts_with_at(s, s.len() - n, suffix)
}

/// Every character of `s` is a `-`, and there is at least one.
pub open spec fn all_dashes(s: Seq<char>) -> bool {
    s.len() > 0 && forall|i: int| 0 <= i < s.len() ==> s[i] == '-'
}

/// Whether `s` is made of one or more `-` only.
pub fn is_dashes(s: &Vec<char>) -> (r: bool)
    ensures
        r == all_dashes(s@),
{
    if s.len() == 0 {
        return false;
    }
    let mut k: usize = 0;
    while k < s.len()
        invariant
            k <= s@.len(),
            forall|i: int| 0 <= i < k ==> s@[i] == '-',
        decreases s@.len() - k,
    {
        if s[k] != '-' {
            return false;
        }
        k = k + 1;
    }
    true
}

/// Appends the characters of `s` to `out`.
pub fn push_string(out: &mut Vec<char>, s: &String)
    ensures
        final(out)@ == old(out)@ + s@,
{
    push_str(out, s.as_str());
}

/// Appends the characters of `s` to `out`.
pub fn push_str(out: &mut Vec<char>, s: &str)
    ensures
        final(out)@ == old(out)@ + s@,
{
    let v = chars_of(s);
    let mut k: usize = 0;
    while k < v.len()
        invariant
            k <= v@.len(),
            v@ == s@,
            out@ == old(out)@ + v@.subrange(0, k as int),
        decreases v@.len() - k,
    {
        out.push(v[k]);
        assert(out@ =~= old(out)@ + v@.subrange(0, k + 1));
        k = k + 1;
    }
    assert(v@.subrange(0, v@.len() as int) =~= v@);
}

} // verus!
