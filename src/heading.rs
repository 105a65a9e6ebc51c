use vstd::prelude::*;
use crate::data::Prim;
use crate::text::{decimal, digit, push_decimal, push_string};

verus! {

/// The registry of heading identifiers holds each identifier once, and no count exceeds `bound`.
pub open spec fn registry_ok(reg: Seq<(Vec<char>, usize)>, bound: int) -> bool {
    &&& keys_unique(reg)
    &&& forall|i: int| 0 <= i < reg.len() ==> reg[i].1 <= bound
}

/// No identifier occurs twice in the registry.
pub open spec fn keys_unique(reg: Seq<(Vec<char>, usize)>) -> bool {
    forall|i: int, j: int| 0 <= i < j < reg.len() ==> reg[i].0@ != reg[j].0@
}

/// How many headings of level two or more already used the identifier `key`.
pub open spec fn used_count(reg: Seq<(Vec<char>, usize)>, key: Seq<char>) -> nat
    decreases reg.len(),
{
    if reg.len() == 0 {
        0
    } else if reg.last().0@ == key {
        reg.last().1 as nat
    } else {
        used_count(reg.drop_last(), key)
    }
}

/// The identifier of a heading whose text is `base` and which `n` earlier headings
/// share: the text itself the first time, then the text followed by `-n`.
pub open spec fn heading_id(base: Seq<char>, n: nat) -> Seq<char> {
    if n == 0 {
        base
    } else {
        base + seq!['-'] + decimal(n)
    }
}

proof fn lemma_used_count_at(reg: Seq<(Vec<char>, usize)>, i: int)
    requires
        keys_unique(reg),
        0 <= i < reg.len(),
    ensures
        used_count(reg, reg[i].0@) == reg[i].1,
    decreases reg.len(),
{
    if i < reg.len() - 1 {
        assert(reg.last() == reg[reg.len() - 1]);
        lemma_used_count_at(reg.drop_last(), i);
    }
}

/// No count exceeds a bound that every entry respects.
pub proof fn lemma_used_count_bound(reg: Seq<(Vec<char>, usize)>, key: Seq<char>, bound: int)
    requires
        forall|i: int| 0 <= i < reg.len() ==> reg[i].1 <= bound,
        0 <= bound,
    ensures
        used_count(reg, key) <= bound,
    decreases reg.len(),
{
    if reg.len() > 0 {
        assert(reg.last() == reg[reg.len() - 1]);
        lemma_used_count_bound(reg.drop_last(), key, bound);
    }
}

proof fn lemma_used_count_absent(reg: Seq<(Vec<char>, usize)>, key: Seq<char>)
    requires
        forall|i: int| 0 <= i < reg.len() ==> reg[i].0@ != key,
    ensures
        used_count(reg, key) == 0,
    decreases reg.len(),
{
    if reg.len() > 0 {
        assert(reg.last() == reg[reg.len() - 1]);
        lemma_used_count_absent(reg.drop_last(), key);
    }
}

/// Counts of all keys but those at index `i` agree between `a` and `b` when they differ
/// only there (or `b` adds one entry at the end).
proof fn lemma_used_count_other(
    a: Seq<(Vec<char>, usize)>,
    b: Seq<(Vec<char>, usize)>,
    key: Seq<char>,
    other: Seq<char>,
)
    requires
        keys_unique(a),
        keys_unique(b),
        other != key,
        a.len() <= b.len() <= a.len() + 1,
        forall|i: int| 0 <= i < a.len() && a[i].0@ != key ==> b[i] == a[i],
        forall|i: int| 0 <= i < a.len() && a[i].0@ == key ==> b[i].0@ == key,
        b.len() == a.len() + 1 ==> b.last().0@ == key,
    ensures
        used_count(b, other) == used_count(a, other),
{
    if exists|i: int| 0 <= i < a.len() && a[i].0@ == other {
        let i = choose|i: int| 0 <= i < a.len() && a[i].0@ == other;
        lemma_used_count_at(a, i);
        lemma_used_count_at(b, i);
    } else {
        lemma_used_count_absent(a, other);
        assert forall|i: int| 0 <= i < b.len() implies b[i].0@ != other by {
            if i < a.len() {
                if a[i].0@ == key {
                } else {
                    assert(b[i] == a[i]);
                }
            }
        }
        lemma_used_count_absent(b, other);
    }
}

/// Whether two character buffers hold the same characters.
pub fn same_chars(a: &Vec<char>, b: &Vec<char>) -> (r: bool)
    ensures
        r == (a@ == b@),
{
    if a.len() != b.len() {
        return false;
    }
    let mut k: usize = 0;
    while k < a.len()
        invariant
            a@.len() == b@.len(),
            k <= a@.len(),
            forall|j: int| 0 <= j < k ==> a@[j] == b@[j],
        decreases a@.len() - k,
    {
        if a[k] != b[k] {
            return false;
        }
        k = k + 1;
    }
    assert(a@ =~= b@);
    true
}

/// Counts one more use of `key` and returns how many uses came before.
pub fn register(reg: &mut Vec<(Vec<char>, usize)>, key: Vec<char>) -> (n: usize)
    requires
        keys_unique(old(reg)@),
        forall|i: int| 0 <= i < old(reg)@.len() ==> old(reg)@[i].1 < usize::MAX,
    ensures
        n == used_count(old(reg)@, key@),
        used_count(final(reg)@, key@) == n + 1,
        forall|other: Seq<char>|
            other != key@ ==> used_count(final(reg)@, other) == used_count(old(reg)@, other),
        keys_unique(final(reg)@),
        forall|i: int|
            0 <= i < final(reg)@.len() ==> final(reg)@[i].1 <= n + 1 || (i < old(reg)@.len()
                && final(reg)@[i].1 == old(reg)@[i].1),
{
    let mut i: usize = 0;
    while i < reg.len()
        invariant
            reg@ == old(reg)@,
            keys_unique(reg@),
            forall|j: int| 0 <= j < reg@.len() ==> reg@[j].1 < usize::MAX,
            i <= reg@.len(),
            forall|j: int| 0 <= j < i ==> reg@[j].0@ != key@,
        decreases reg@.len() - i,
    {
        if same_chars(&reg[i].0, &key) {
            let c = reg[i].1;
            assert(c < usize::MAX);
            proof { lemma_used_count_at(reg@, i as int); }
            reg.set(i, (key, c + 1));
            proof {
                assert forall|a: int, b: int| 0 <= a < b < reg@.len() implies reg@[a].0@ != reg@[b].0@ by {
                    assert(old(reg)@[a].0@ != old(reg)@[b].0@);
                }
                lemma_used_count_at(reg@, i as int);
                assert forall|other: Seq<char>| other != key@ implies used_count(reg@, other)
                    == used_count(old(reg)@, other) by {
                    lemma_used_count_other(old(reg)@, reg@, key@, other);
                }
            }
            return c;
        }
        i = i + 1;
    }
    proof { lemma_used_count_absent(reg@, key@); }
    reg.push((key, 1));
    proof {
        assert(reg@.last() == reg@[reg@.len() - 1]);
        assert forall|a: int, b: int| 0 <= a < b < reg@.len() implies reg@[a].0@ != reg@[b].0@ by {
            if b < old(reg)@.len() {
                assert(old(reg)@[a].0@ != old(reg)@[b].0@);
            }
        }
        lemma_used_count_at(reg@, reg@.len() - 1);
        assert forall|other: Seq<char>| other != key@ implies used_count(reg@, other)
            == used_count(old(reg)@, other) by {
            lemma_used_count_other(old(reg)@, reg@, key@, other);
        }
    }
    0
}

/// The identifier for a heading with text `base` that `n` earlier headings share.
pub fn make_heading_id(base: &Vec<char>, n: usize) -> (r: Vec<char>)
    ensures
        r@ == heading_id(base@, n as nat),
{
    let mut out: Vec<char> = Vec::new();
    let mut k: usize = 0;
    while k < base.len()
        invariant
            k <= base@.len(),
            out@ == base@.subrange(0, k as int),
        decreases base@.len() - k,
    {
        out.push(base[k]);
        assert(out@ =~= base@.subrange(0, k + 1));
        k = k + 1;
    }
    assert(out@ =~= base@);
    if n > 0 {
        out.push('-');
        push_decimal(&mut out, n);
    }
    out
}

proof fn lemma_decimal_len(n: nat)
    ensures
        decimal(n).len() >= 1,
        n >= 10 ==> decimal(n).len() >= 2,
    decreases n,
{
    if n >= 10 {
        lemma_decimal_len(n / 10);
    }
}

proof fn lemma_digit_injective(a: nat, b: nat)
    requires
        a < 10,
        b < 10,
        digit(a) == digit(b),
    ensures
        a == b,
{
}

/// Decimal notation is one-to-one.
pub proof fn lemma_decimal_injective(n: nat, m: nat)
    requires
        decimal(n) == decimal(m),
    ensures
        n == m,
    decreases n,
{
    lemma_decimal_len(n);
    lemma_decimal_len(m);
    if n < 10 && m < 10 {
        assert(decimal(n)[0] == digit(n));
        assert(decimal(m)[0] == digit(m));
        lemma_digit_injective(n, m);
    } else if n >= 10 && m >= 10 {
        assert(decimal(n).last() == digit(n % 10));
        assert(decimal(m).last() == digit(m % 10));
        lemma_digit_injective(n % 10, m % 10);
        assert(decimal(n / 10) =~= decimal(n).drop_last());
        assert(decimal(m / 10) =~= decimal(m).drop_last());
        lemma_decimal_injective(n / 10, m / 10);
    }
}

/// Repeated headings with the same text get pairwise distinct identifiers: the
/// identifiers given after `n` and after `m` earlier uses differ whenever `n != m`.
pub proof fn lemma_heading_ids_distinct(base: Seq<char>, n: nat, m: nat)
    requires
        n != m,
    ensures
        heading_id(base, n) != heading_id(base, m),
{
    if n > 0 && m > 0 {
        if heading_id(base, n) == heading_id(base, m) {
            let k = base.len() + 1;
            assert(heading_id(base, n).subrange(k as int, heading_id(base, n).len() as int) =~= decimal(n));
            assert(heading_id(base, m).subrange(k as int, heading_id(base, m).len() as int) =~= decimal(m));
            assert(decimal(n) == decimal(m));
            lemma_decimal_injective(n, m);
        }
    } else if n == 0 {
        lemma_decimal_len(m);
    } else {
        lemma_decimal_len(n);
    }
}

/// The plain text of a primitive: the source of text, code and math; nothing for a link.
pub open spec fn prim_text(p: Prim) -> Seq<char> {
    match p {
        Prim::Text { text } => text@,
        Prim::Code { code } => code@,
        Prim::Math { math } => math@,
        Prim::Link { .. } => Seq::empty(),
    }
}

/// The plain text of a sequence of primitives, in order.
pub open spec fn prims_text(ps: Seq<Prim>) -> Seq<char>
    decreases ps.len(),
{
    if ps.len() == 0 {
        Seq::empty()
    } else {
        prims_text(ps.drop_last()) + prim_text(ps.last())
    }
}

/// What one primitive of a heading gives its identifier: a link gives the plain text
/// of its own text, anything else its plain text.
pub open spec fn label_text(p: Prim) -> Seq<char> {
    match p {
        Prim::Link { text, .. } => prims_text(text@),
        _ => prim_text(p),
    }
}

/// The text a heading's identifier is made from.
pub open spec fn heading_base(ps: Seq<Prim>) -> Seq<char>
    decreases ps.len(),
{
    if ps.len() == 0 {
        Seq::empty()
    } else {
        heading_base(ps.drop_last()) + label_text(ps.last())
    }
}

fn push_prim_text(out: &mut Vec<char>, p: &Prim)
    ensures
        final(out)@ == old(out)@ + prim_text(*p),
{
    match p {
        Prim::Text { text } => push_string(out, text),
        Prim::Code { code } => push_string(out, code),
        Prim::Math { math } => push_string(out, math),
        Prim::Link { .. } => {
            assert(out@ =~= old(out)@ + prim_text(*p));
        },
    }
}

fn push_prims_text(out: &mut Vec<char>, ps: &Vec<Prim>)
    ensures
        final(out)@ == old(out)@ + prims_text(ps@),
{
    let mut k: usize = 0;
    while k < ps.len()
        invariant
            k <= ps@.len(),
            out@ == old(out)@ + prims_text(ps@.subrange(0, k as int)),
        decreases ps@.len() - k,
    {
        push_prim_text(out, &ps[k]);
        assert(ps@.subrange(0, k + 1).drop_last() =~= ps@.subrange(0, k as int));
        assert(out@ =~= old(out)@ + prims_text(ps@.subrange(0, k + 1)));
        k = k + 1;
    }
    assert(ps@.subrange(0, ps@.len() as int) =~= ps@);
}

/// The text a heading's identifier is made from (see `heading_base`).
pub fn heading_text(ps: &Vec<Prim>) -> (r: Vec<char>)
    ensures
        r@ == heading_base(ps@),
{
    let mut out: Vec<char> = Vec::new();
    let mut k: usize = 0;
    while k < ps.len()
        invariant
            k <= ps@.len(),
            out@ == heading_base(ps@.subrange(0, k as int)),
        decreases ps@.len() - k,
    {
        match &ps[k] {
            Prim::Link { text, .. } => push_prims_text(&mut out, text),
            other => push_prim_text(&mut out, other),
        }
        assert(ps@.subrange(0, k + 1).drop_last() =~= ps@.subrange(0, k as int));
        assert(out@ =~= heading_base(ps@.subrange(0, k + 1)));
        k = k + 1;
    }
    assert(ps@.subrange(0, ps@.len() as int) =~= ps@);
    out
}

/// The value of a primitive, with its strings as character sequences.
pub enum PrimV {
    Link(Seq<PrimV>, Seq<char>),
    Math(Seq<char>),
    Code(Seq<char>),
    Text(Seq<char>),
}

/// The value of a primitive.
pub open spec fn prim_v(p: Prim) -> PrimV
    decreases p,
{
    match p {
        Prim::Link { text, url } => PrimV::Link(prims_v(text@), url@),
        Prim::Math { math } => PrimV::Math(math@),
        Prim::Code { code } => PrimV::Code(code@),
        Prim::Text { text } => PrimV::Text(text@),
    }
}

/// The values of a sequence of primitives.
pub open spec fn prims_v(ps: Seq<Prim>) -> Seq<PrimV>
    decreases ps,
{
    if ps.len() == 0 {
        Seq::empty()
    } else {
        prims_v(ps.subrange(0, ps.len() - 1)).push(prim_v(ps[ps.len() - 1]))
    }
}

/// A copy of a primitive, links included.
pub fn copy_prim(p: &Prim) -> (r: Prim)
    ensures
        prim_v(r) == prim_v(*p),
    decreases p,
{
    match p {
        Prim::Link { text, url } => {
            let mut out: Vec<Prim> = Vec::new();
            let mut j: usize = 0;
            while j < text.len()
                invariant
                    *p is Link,
                    (*p)->Link_text == *text,
                    j <= text@.len(),
                    prims_v(out@) == prims_v(text@.subrange(0, j as int)),
                decreases text@.len() - j,
            {
                proof {
                    assert(decreases_to!(*p => (*p)->Link_text));
                    assert(decreases_to!(*text => text@));
                    assert(decreases_to!(text@ => text@[j as int]));
                }
                let c = copy_prim(&text[j]);
                let ghost before = out@;
                out.push(c);
                assert(out@.subrange(0, out@.len() - 1) =~= before);
                assert(text@.subrange(0, j + 1).subrange(0, j as int) =~= text@.subrange(0, j as int));
                j = j + 1;
            }
            assert(text@.subrange(0, text@.len() as int) =~= text@);
            Prim::Link { text: out, url: url.clone() }
        },
        Prim::Math { math } => Prim::Math { math: math.clone() },
        Prim::Code { code } => Prim::Code { code: code.clone() },
        Prim::Text { text } => Prim::Text { text: text.clone() },
    }
}

/// The label of a heading's contents entry: its primitives in order, each top-level
/// link replaced by the primitives of its text.
pub open spec fn label_v(ps: Seq<Prim>) -> Seq<PrimV>
    decreases ps.len(),
{
    if ps.len() == 0 {
        Seq::empty()
    } else {
        label_v(ps.drop_last()) + match ps.last() {
            Prim::Link { text, .. } => prims_v(text@),
            other => seq![prim_v(other)],
        }
    }
}

/// The label of a contents entry: the heading's primitives, each link replaced by its text.
pub fn toc_label(ps: &Vec<Prim>) -> (r: Vec<Prim>)
    ensures
        prims_v(r@) == label_v(ps@),
{
    let mut out: Vec<Prim> = Vec::new();
    let mut k: usize = 0;
    while k < ps.len()
        invariant
            k <= ps@.len(),
            prims_v(out@) == label_v(ps@.subrange(0, k as int)),
        decreases ps@.len() - k,
    {
        let ghost start = out@;
        match &ps[k] {
            Prim::Link { text, .. } => {
                let mut j: usize = 0;
                while j < text.len()
                    invariant
                        j <= text@.len(),
                        prims_v(out@) == prims_v(start) + prims_v(text@.subrange(0, j as int)),
                    decreases text@.len() - j,
                {
                    let c = copy_prim(&text[j]);
                    let ghost before = out@;
                    out.push(c);
                    assert(out@.subrange(0, out@.len() - 1) =~= before);
                    assert(text@.subrange(0, j + 1).subrange(0, j as int) =~= text@.subrange(0, j as int));
                    assert(prims_v(out@) =~= prims_v(start) + prims_v(text@.subrange(0, j + 1)));
                    j = j + 1;
                }
                assert(text@.subrange(0, text@.len() as int) =~= text@);
            },
            other => {
                let c = copy_prim(other);
                out.push(c);
                assert(out@.subrange(0, out@.len() - 1) =~= start);
            },
        }
        assert(ps@.subrange(0, k + 1).drop_last() =~= ps@.subrange(0, k as int));
        assert(prims_v(out@) =~= label_v(ps@.subrange(0, k + 1)));
        k = k + 1;
    }
    assert(ps@.subrange(0, ps@.len() as int) =~= ps@);
    out
}

} // verus!
