//! Splitting raw file content into lines, and the trailing-terminator rules.

use vstd::prelude::*;

verus! {

/// The line terminator byte.
pub const TERMINATOR: u8 = 10;

/// Index of the first terminator byte in `c`, or -1 when `c` holds none.
pub open spec fn first_terminator(c: Seq<u8>) -> int
    decreases c.len(),
{
    if c.len() == 0 {
        -1
    } else if c[0] == TERMINATOR {
        0
    } else if first_terminator(c.skip(1)) < 0 {
        -1
    } else {
        first_terminator(c.skip(1)) + 1
    }
}

/// `first_terminator` finds the least index holding the terminator, or -1
/// when there is none.
pub proof fn lemma_first_terminator(c: Seq<u8>)
    ensures
        first_terminator(c) == -1 ==> forall|j: int|
            0 <= j < c.len() ==> c[j] != TERMINATOR,
        first_terminator(c) != -1 ==> {
            &&& 0 <= first_terminator(c) < c.len()
            &&& c[first_terminator(c)] == TERMINATOR
            &&& forall|j: int| 0 <= j < first_terminator(c) ==> c[j] != TERMINATOR
        },
    decreases c.len(),
{
    if c.len() == 0 {
    } else if c[0] == TERMINATOR {
    } else {
        lemma_first_terminator(c.skip(1));
        assert(forall|j: int| 1 <= j < c.len() ==> #[trigger] c[j] == c.skip(1)[j - 1]);
    }
}

/// The index `i` is the first terminator of `c` exactly when it holds the
/// terminator and no earlier index does.
pub proof fn lemma_first_terminator_at(c: Seq<u8>, i: int)
    requires
        0 <= i < c.len(),
        c[i] == TERMINATOR,
        forall|j: int| 0 <= j < i ==> c[j] != TERMINATOR,
    ensures
        first_terminator(c) == i,
{
    lemma_first_terminator(c);
}

/// With no terminator anywhere in `c`, `first_terminator` is -1.
pub proof fn lemma_first_terminator_none(c: Seq<u8>)
    requires
        forall|j: int| 0 <= j < c.len() ==> c[j] != TERMINATOR,
    ensures
        first_terminator(c) == -1,
{
    lemma_first_terminator(c);
}

/// The lines of raw file content: the content split on the terminator byte.
/// A nonempty trailing fragment without a terminator still counts as a line;
/// an empty trailing fragment contributes nothing.
pub open spec fn seed_lines(c: Seq<u8>) -> Seq<Seq<u8>>
    decreases c.len(),
{
    if c.len() == 0 {
        Seq::empty()
    } else {
        let i = first_terminator(c);
        if 0 <= i < c.len() {
            seq![c.take(i)] + seed_lines(c.skip(i + 1))
        } else {
            seq![c]
        }
    }
}

/// The set of lines of raw file content.
pub open spec fn seed_line_set(c: Seq<u8>) -> Set<Seq<u8>> {
    seed_lines(c).to_set()
}

/// True when the content is nonempty and already ends with a terminator.
pub open spec fn ends_terminated(c: Seq<u8>) -> bool {
    c.len() > 0 && c.last() == TERMINATOR
}

/// The content after the corrective write a seeding pass performs: a single
/// terminator is added when the content is nonempty and unterminated, so
/// that appended records start on their own line.
pub open spec fn corrected(c: Seq<u8>) -> Seq<u8> {
    if c.len() > 0 && !ends_terminated(c) {
        c + seq![TERMINATOR]
    } else {
        c
    }
}

/// A byte sequence that holds no terminator byte anywhere.
pub open spec fn terminator_free(l: Seq<u8>) -> bool {
    forall|j: int| 0 <= j < l.len() ==> l[j] != TERMINATOR
}

/// Every line of a split is terminator-free.
pub proof fn lemma_seed_lines_terminator_free(c: Seq<u8>)
    ensures
        forall|k: int| 0 <= k < seed_lines(c).len() ==> terminator_free(
            #[trigger] seed_lines(c)[k],
        ),
    decreases c.len(),
{
    broadcast use vstd::seq_lib::lemma_seq_take_index;

    if c.len() > 0 {
        lemma_first_terminator(c);
        let i = first_terminator(c);
        if 0 <= i < c.len() {
            lemma_seed_lines_terminator_free(c.skip(i + 1));
            assert(terminator_free(c.take(i)));
            assert(forall|k: int| 1 <= k < seed_lines(c).len() ==> #[trigger] seed_lines(c)[k]
                == seed_lines(c.skip(i + 1))[k - 1]);
            assert(seed_lines(c)[0] == c.take(i));
        } else {
            assert(terminator_free(c));
            assert(seed_lines(c)[0] == c);
        }
    }
}

/// A single terminator-free record closed with a terminator splits into
/// exactly that record.
pub proof fn lemma_seed_lines_single(l: Seq<u8>)
    requires
        terminator_free(l),
    ensures
        seed_lines(l + seq![TERMINATOR]) == seq![l],
{
    let c = l + seq![TERMINATOR];
    assert(forall|j: int| 0 <= j < l.len() ==> #[trigger] c[j] == l[j]);
    assert(c[l.len() as int] == TERMINATOR);
    lemma_first_terminator_at(c, l.len() as int);
    assert(c.take(l.len() as int) =~= l);
    assert(c.skip(l.len() as int + 1) =~= Seq::<u8>::empty());
    assert(seed_lines(Seq::<u8>::empty()) == Seq::<Seq<u8>>::empty());
    assert(seq![c.take(l.len() as int)] + Seq::<Seq<u8>>::empty() =~= seq![l]);
}

/// Splitting distributes over concatenation at a terminated boundary.
pub proof fn lemma_seed_lines_concat(a: Seq<u8>, b: Seq<u8>)
    requires
        ends_terminated(a),
    ensures
        seed_lines(a + b) == seed_lines(a) + seed_lines(b),
    decreases a.len(),
{
    let c = a + b;
    assert(forall|j: int| 0 <= j < a.len() ==> #[trigger] c[j] == a[j]);
    lemma_first_terminator(a);
    let fa = first_terminator(a);
    assert(fa != -1) by {
        assert(a[a.len() - 1] == TERMINATOR);
    }
    lemma_first_terminator_at(c, fa);
    assert(c.take(fa) =~= a.take(fa));
    let ap = a.skip(fa + 1);
    assert(c.skip(fa + 1) =~= ap + b);
    if ap.len() == 0 {
        assert(ap =~= Seq::<u8>::empty());
        assert(c.skip(fa + 1) =~= b);
        assert(seed_lines(Seq::<u8>::empty()) == Seq::<Seq<u8>>::empty());
        assert((seq![a.take(fa)] + Seq::<Seq<u8>>::empty()) + seed_lines(b) =~= seq![a.take(fa)]
            + seed_lines(b));
    } else {
        assert(ap[ap.len() - 1] == a[a.len() - 1]);
        lemma_seed_lines_concat(ap, b);
        assert(seq![c.take(fa)] + (seed_lines(ap) + seed_lines(b)) =~= (seq![a.take(fa)]
            + seed_lines(ap)) + seed_lines(b));
    }
}

/// Writing the corrective terminator after unterminated content changes no
/// line: the final fragment is simply closed.
pub proof fn lemma_seed_lines_close(a: Seq<u8>)
    requires
        a.len() > 0,
        a.last() != TERMINATOR,
    ensures
        seed_lines(a + seq![TERMINATOR]) == seed_lines(a),
    decreases a.len(),
{
    let c = a + seq![TERMINATOR];
    assert(forall|j: int| 0 <= j < a.len() ==> #[trigger] c[j] == a[j]);
    lemma_first_terminator(a);
    let fa = first_terminator(a);
    if fa == -1 {
        assert(c[a.len() as int] == TERMINATOR);
        lemma_first_terminator_at(c, a.len() as int);
        assert(c.take(a.len() as int) =~= a);
        assert(c.skip(a.len() as int + 1) =~= Seq::<u8>::empty());
        assert(seed_lines(Seq::<u8>::empty()) == Seq::<Seq<u8>>::empty());
        assert(seq![a] + Seq::<Seq<u8>>::empty() =~= seq![a]);
    } else {
        assert(fa < a.len() - 1) by {
            assert(a[a.len() - 1] != TERMINATOR);
        }
        lemma_first_terminator_at(c, fa);
        assert(c.take(fa) =~= a.take(fa));
        let ap = a.skip(fa + 1);
        assert(ap.len() > 0);
        assert(ap[ap.len() - 1] == a[a.len() - 1]);
        lemma_seed_lines_close(ap);
        assert(c.skip(fa + 1) =~= ap + seq![TERMINATOR]);
    }
}

/// Terminator correction: appending one terminator-free record, after the
/// corrective terminator when one is due, extends the file's lines by
/// exactly that record. The old last line and the new one stay separate.
pub proof fn lemma_append_extends_lines(c: Seq<u8>, l: Seq<u8>)
    requires
        terminator_free(l),
    ensures
        seed_lines(corrected(c) + (l + seq![TERMINATOR])) == seed_lines(c).push(l),
{
    lemma_seed_lines_single(l);
    if c.len() == 0 {
        assert(corrected(c) + (l + seq![TERMINATOR]) =~= l + seq![TERMINATOR]);
        assert(Seq::<Seq<u8>>::empty().push(l) =~= seq![l]);
    } else if ends_terminated(c) {
        lemma_seed_lines_concat(c, l + seq![TERMINATOR]);
        assert(seed_lines(c) + seq![l] =~= seed_lines(c).push(l));
    } else {
        let cc = c + seq![TERMINATOR];
        assert(cc[c.len() as int] == TERMINATOR);
        assert(cc.last() == TERMINATOR);
        lemma_seed_lines_concat(cc, l + seq![TERMINATOR]);
        lemma_seed_lines_close(c);
        assert(seed_lines(c) + seq![l] =~= seed_lines(c).push(l));
    }
}

/// The raw bytes of a sequence of records, each closed with a terminator.
pub open spec fn terminated_records(ls: Seq<Seq<u8>>) -> Seq<u8>
    decreases ls.len(),
{
    if ls.len() == 0 {
        Seq::empty()
    } else {
        (ls[0] + seq![TERMINATOR]) + terminated_records(ls.skip(1))
    }
}

/// Appending a whole sequence of terminator-free records, after the
/// corrective terminator when one is due, extends the file's lines by
/// exactly those records, in order.
pub proof fn lemma_appends_extend_lines(c: Seq<u8>, ls: Seq<Seq<u8>>)
    requires
        forall|k: int| 0 <= k < ls.len() ==> terminator_free(#[trigger] ls[k]),
    ensures
        seed_lines(corrected(c) + terminated_records(ls)) == seed_lines(c) + ls,
    decreases ls.len(),
{
    broadcast use vstd::seq_lib::lemma_seq_skip_index;

    if ls.len() == 0 {
        assert(corrected(c) + terminated_records(ls) =~= corrected(c));
        if c.len() > 0 && !ends_terminated(c) {
            lemma_seed_lines_close(c);
        }
        assert(seed_lines(c) + ls =~= seed_lines(c));
    } else {
        let l0 = ls[0];
        let file1 = corrected(c) + (l0 + seq![TERMINATOR]);
        lemma_append_extends_lines(c, l0);
        assert(file1.last() == TERMINATOR);
        assert(corrected(file1) == file1);
        assert(forall|k: int| 0 <= k < ls.skip(1).len() ==> terminator_free(
            #[trigger] ls.skip(1)[k],
        ));
        lemma_appends_extend_lines(file1, ls.skip(1));
        assert(corrected(c) + terminated_records(ls) =~= file1 + terminated_records(ls.skip(1)));
        assert(seed_lines(c).push(l0) + ls.skip(1) =~= seed_lines(c) + ls);
    }
}

/// Relies on memchr::memchr: the returned index is the first occurrence of
/// `needle` in the slice that starts at `start`, counted from `start`, and
/// `None` means the byte does not occur there at all.
#[verifier::external_body]
fn find_byte_from(needle: u8, haystack: &Vec<u8>, start: usize) -> (r: Option<usize>)
    requires
        start <= haystack@.len(),
    ensures
        match r {
            Some(i) => start + i < haystack@.len() && haystack@[start + i] == needle
                && forall|j: int| start <= j < start + i ==> haystack@[j] != needle,
            None => forall|j: int| start <= j < haystack@.len() ==> haystack@[j] != needle,
        },
{
    memchr::memchr(needle, &haystack[start..])
}

/// A fresh copy of the bytes of `v` between `a` (inclusive) and `b`
/// (exclusive).
pub fn copy_range(v: &Vec<u8>, a: usize, b: usize) -> (r: Vec<u8>)
    requires
        a <= b <= v@.len(),
    ensures
        r@ == v@.subrange(a as int, b as int),
{
    let mut r: Vec<u8> = Vec::new();
    let mut k: usize = a;
    while k < b
        invariant
            a <= k <= b <= v@.len(),
            r@ == v@.subrange(a as int, k as int),
        decreases b - k,
    {
        r.push(v[k]);
        k += 1;
        assert(r@ =~= v@.subrange(a as int, k as int));
    }
    r
}

/// The views of a sequence of byte vectors.
pub open spec fn views(s: Seq<Vec<u8>>) -> Seq<Seq<u8>> {
    s.map_values(|v: Vec<u8>| v@)
}

/// Split raw file content into its lines, exactly as `seed_lines` states.
pub fn split_lines(content: &Vec<u8>) -> (r: Vec<Vec<u8>>)
    ensures
        views(r@) == seed_lines(content@),
{
    let mut r: Vec<Vec<u8>> = Vec::new();
    let mut start: usize = 0;
    proof {
        assert(content@.skip(0) =~= content@);
        assert(views(r@) + seed_lines(content@) =~= seed_lines(content@));
    }
    loop
        invariant_except_break
            start <= content@.len(),
            views(r@) + seed_lines(content@.skip(start as int)) == seed_lines(content@),
        ensures
            views(r@) == seed_lines(content@),
        decreases content@.len() - start,
    {
        let limit: usize = content.len();
        let ghost rem = content@.skip(start as int);
        proof {
            assert(rem.len() == content@.len() - start);
            assert(forall|j: int| 0 <= j < rem.len() ==> rem[j] == content@[start + j]);
        }
        match find_byte_from(TERMINATOR, content, start) {
            Some(i) => {
                proof {
                    assert(rem[i as int] == TERMINATOR);
                    lemma_first_terminator_at(rem, i as int);
                }
                let line = copy_range(content, start, start + i);
                proof {
                    assert(line@ =~= rem.take(i as int));
                    assert(rem.skip(i + 1) =~= content@.skip(start + i + 1));
                    assert(seed_lines(rem) == seq![rem.take(i as int)] + seed_lines(rem.skip(i + 1)));
                    assert(views(r@.push(line)) =~= views(r@).push(line@));
                    assert(views(r@).push(line@) + seed_lines(rem.skip(i + 1))
                        =~= views(r@) + (seq![line@] + seed_lines(rem.skip(i + 1))));
                    assert(seq![line@] + seed_lines(rem.skip(i + 1)) =~= seed_lines(rem));
                }
                r.push(line);
                start = start + i + 1;
            },
            None => {
                proof {
                    lemma_first_terminator_none(rem);
                }
                if start < limit {
                    let line = copy_range(content, start, limit);
                    proof {
                        assert(line@ =~= rem);
                        assert(seed_lines(rem) == seq![rem]);
                        assert(views(r@.push(line)) =~= views(r@).push(line@));
                        assert(views(r@).push(line@) =~= views(r@) + seq![rem]);
                    }
                    r.push(line);
                } else {
                    proof {
                        assert(rem.len() == 0);
                        assert(views(r@) + seed_lines(rem) =~= views(r@));
                    }
                }
                break;
            },
        }
    }
    r
}

/// True when the raw content is nonempty and its final byte is the
/// terminator.
pub fn has_final_terminator(content: &Vec<u8>) -> (r: bool)
    ensures
        r == ends_terminated(content@),
{
    content.len() > 0 && content[content.len() - 1] == TERMINATOR
}

/// True when a corrective terminator must be written before the first
/// append: the seed content is nonempty and does not already end with one.
pub fn needs_correction(content: &Vec<u8>) -> (r: bool)
    ensures
        r == (content@.len() > 0 && !ends_terminated(content@)),
        r == (corrected(content@) != content@),
{
    proof {
        if content@.len() > 0 && !ends_terminated(content@) {
            assert(corrected(content@).len() == content@.len() + 1);
        }
    }
    content.len() > 0 && content[content.len() - 1] != TERMINATOR
}

} // verus!
