//! The members that a cache holds: a member without line information is
//! left out where a record of the same method of the same class has a line
//! range.

use vstd::prelude::*;

use crate::builder::{members_model, MemberEntry, MemberModel};
use crate::builder::ClassModel;
use crate::cache::writer::{span_sum, spans_model, Span, SpanModel};
use crate::text::str_eq;

verus! {

/// Whether some member of `all` of the same class and method as `m` has a
/// line range.
pub open spec fn method_has_lines(all: Seq<MemberModel>, m: MemberModel) -> bool {
    exists|j: int|
        0 <= j < all.len() && (#[trigger] all[j]).class_obfuscated == m.class_obfuscated
            && all[j].obfuscated == m.obfuscated && all[j].endline > 0
}

/// Whether a member is left out of a cache of the members `all`: it has no
/// line information (`0:0`), and its method has a line range elsewhere.
pub open spec fn dropped(all: Seq<MemberModel>, m: MemberModel) -> bool {
    m.startline == 0 && m.endline == 0 && method_has_lines(all, m)
}

/// The members of `s` that a cache of the members `all` holds, in order.
pub open spec fn keep(all: Seq<MemberModel>, s: Seq<MemberModel>) -> Seq<MemberModel>
    decreases s.len(),
{
    if s.len() == 0 {
        Seq::empty()
    } else if dropped(all, s.last()) {
        keep(all, s.drop_last())
    } else {
        keep(all, s.drop_last()).push(s.last())
    }
}

/// The members that a cache of the members `ms` holds.
pub open spec fn cached_members(ms: Seq<MemberModel>) -> Seq<MemberModel> {
    keep(ms, ms)
}

/// Where the members of a class stand among the cached members, for a
/// class whose members stood at `sp` among all members.
pub open spec fn cached_span(ms: Seq<MemberModel>, sp: SpanModel) -> SpanModel {
    SpanModel {
        first: keep(ms, ms.subrange(0, sp.first)).len() as int,
        len: keep(ms, ms.subrange(sp.first, sp.first + sp.len)).len() as int,
    }
}

/// Where the members of each class stand among the cached members.
pub open spec fn cached_spans(ms: Seq<MemberModel>, spans: Seq<SpanModel>) -> Seq<SpanModel> {
    spans.map_values(|sp: SpanModel| cached_span(ms, sp))
}

/// Keeping the members of two pieces keeps those of each, one after the other.
pub proof fn lemma_keep_concat(all: Seq<MemberModel>, a: Seq<MemberModel>, b: Seq<MemberModel>)
    ensures
        keep(all, a + b) == keep(all, a) + keep(all, b),
    decreases b.len(),
{
    if b.len() == 0 {
        assert(a + b =~= a);
        assert(keep(all, a) + keep(all, b) =~= keep(all, a));
    } else {
        assert((a + b).drop_last() =~= a + b.drop_last());
        assert((a + b).last() == b.last());
        lemma_keep_concat(all, a, b.drop_last());
        if !dropped(all, b.last()) {
            assert(keep(all, a) + keep(all, b.drop_last()).push(b.last()) =~= (keep(all, a) + keep(
                all,
                b.drop_last(),
            )).push(b.last()));
        }
    }
}

/// A kept piece is no longer than the piece.
pub proof fn lemma_keep_len(all: Seq<MemberModel>, s: Seq<MemberModel>)
    ensures
        keep(all, s).len() <= s.len(),
    decreases s.len(),
{
    if s.len() > 0 {
        lemma_keep_len(all, s.drop_last());
    }
}

/// What holds of every member of a piece holds of every kept one.
pub proof fn lemma_keep_all(all: Seq<MemberModel>, s: Seq<MemberModel>, p: spec_fn(MemberModel) -> bool)
    requires
        forall|i: int| 0 <= i < s.len() ==> p(#[trigger] s[i]),
    ensures
        forall|i: int| 0 <= i < keep(all, s).len() ==> p(#[trigger] keep(all, s)[i]),
    decreases s.len(),
{
    if s.len() > 0 {
        assert forall|i: int| 0 <= i < s.drop_last().len() implies p(#[trigger] s.drop_last()[i]) by {
            assert(s.drop_last()[i] == s[i]);
        }
        lemma_keep_all(all, s.drop_last(), p);
        assert(p(s[s.len() - 1]));
        let k0 = keep(all, s.drop_last());
        assert forall|i: int| 0 <= i < keep(all, s).len() implies p(#[trigger] keep(all, s)[i]) by {
            if i < k0.len() {
                assert(keep(all, s)[i] == k0[i]);
            } else {
                assert(keep(all, s)[i] == s.last());
            }
        }
    }
}

/// The cached members of a class lie among the cached members.
pub proof fn lemma_cached_span_bounds(all: Seq<MemberModel>, sp: SpanModel)
    requires
        0 <= sp.first,
        0 <= sp.len,
        sp.first + sp.len <= all.len(),
    ensures
        0 <= cached_span(all, sp).first,
        0 <= cached_span(all, sp).len,
        cached_span(all, sp).first + cached_span(all, sp).len <= cached_members(all).len(),
{
    let e = sp.first + sp.len;
    assert(all =~= all.subrange(0, e) + all.subrange(e, all.len() as int));
    lemma_keep_concat(all, all.subrange(0, e), all.subrange(e, all.len() as int));
    assert(all.subrange(0, e) =~= all.subrange(0, sp.first) + all.subrange(sp.first, e));
    lemma_keep_concat(all, all.subrange(0, sp.first), all.subrange(sp.first, e));
}

/// Whether spans follow each other from the start and cover `n` members.
pub open spec fn spans_tile(spans: Seq<SpanModel>, n: int) -> bool {
    &&& forall|j: int|
        #![trigger spans[j]]
        0 <= j < spans.len() ==> spans[j].first == span_sum(spans, j) && 0 <= spans[j].len
    &&& span_sum(spans, spans.len() as int) == n
}

/// Sums of spans grow with their number.
proof fn lemma_sum_mono(spans: Seq<SpanModel>, a: int, b: int)
    requires
        0 <= a <= b <= spans.len(),
        forall|j: int| #![trigger spans[j]] 0 <= j < spans.len() ==> 0 <= spans[j].len,
    ensures
        0 <= span_sum(spans, a) <= span_sum(spans, b),
    decreases b,
{
    if b > 0 {
        if a < b {
            lemma_sum_mono(spans, a, b - 1);
        }
        lemma_sum_mono(spans, 0, b - 1);
    }
}

/// The cached members of the first `j` spans are those kept of the members
/// those spans cover.
proof fn lemma_cached_sum(all: Seq<MemberModel>, spans: Seq<SpanModel>, j: int)
    requires
        spans_tile(spans, all.len() as int),
        0 <= j <= spans.len(),
    ensures
        0 <= span_sum(spans, j) <= all.len(),
        span_sum(cached_spans(all, spans), j) == keep(all, all.subrange(0, span_sum(spans, j))).len(),
    decreases j,
{
    lemma_sum_mono(spans, j, spans.len() as int);
    lemma_sum_mono(spans, 0, j);
    if j > 0 {
        lemma_cached_sum(all, spans, j - 1);
        let sp = spans[j - 1];
        let a = span_sum(spans, j - 1);
        let b = span_sum(spans, j);
        assert(sp.first == a);
        assert(cached_spans(all, spans)[j - 1] == cached_span(all, sp));
        assert(all.subrange(0, b) =~= all.subrange(0, a) + all.subrange(a, b));
        lemma_keep_concat(all, all.subrange(0, a), all.subrange(a, b));
    }
}

/// Where the spans of classes `cs` tile the members, and each covers
/// members of its class, the cached spans tile the cached members, each
/// covering the cached members of its class.
pub proof fn lemma_cached_layout(all: Seq<MemberModel>, spans: Seq<SpanModel>, cs: Seq<ClassModel>)
    requires
        spans_tile(spans, all.len() as int),
        spans.len() == cs.len(),
        forall|j: int, k: int|
            0 <= j < spans.len() && spans[j].first <= k < spans[j].first + spans[j].len ==> {
                &&& 0 <= k < all.len()
                &&& #[trigger] all[k].class_obfuscated == #[trigger] cs[j].obfuscated
                &&& all[k].class_original == cs[j].original
            },
    ensures
        spans_tile(cached_spans(all, spans), cached_members(all).len() as int),
        forall|j: int|
            0 <= j < spans.len() ==> (#[trigger] cached_spans(all, spans)[j]).first
                + cached_spans(all, spans)[j].len <= cached_members(all).len(),
        forall|j: int, k: int|
            0 <= j < spans.len() && cached_spans(all, spans)[j].first <= k < cached_spans(
                all,
                spans,
            )[j].first + cached_spans(all, spans)[j].len ==> {
                &&& 0 <= k < cached_members(all).len()
                &&& #[trigger] cached_members(all)[k].class_obfuscated == #[trigger] cs[j].obfuscated
                &&& cached_members(all)[k].class_original == cs[j].original
            },
{
    let cp = cached_spans(all, spans);
    let ms = cached_members(all);
    lemma_cached_sum(all, spans, spans.len() as int);
    assert(all.subrange(0, all.len() as int) =~= all);
    assert forall|j: int| #![trigger cp[j]] 0 <= j < cp.len() implies cp[j].first == span_sum(cp, j) && 0
        <= cp[j].len by {
        lemma_cached_sum(all, spans, j);
        assert(cp[j] == cached_span(all, spans[j]));
    }
    assert forall|j: int| 0 <= j < spans.len() implies {
        &&& (#[trigger] cp[j]).first + cp[j].len <= ms.len()
        &&& forall|k: int|
            cp[j].first <= k < cp[j].first + cp[j].len ==> {
                &&& 0 <= k < ms.len()
                &&& #[trigger] ms[k].class_obfuscated == cs[j].obfuscated
                &&& ms[k].class_original == cs[j].original
            }
    } by {
        assert forall|k: int| spans[j].first <= k < spans[j].first + spans[j].len implies {
            &&& 0 <= k < all.len()
            &&& (#[trigger] all[k]).class_obfuscated == cs[j].obfuscated
            &&& all[k].class_original == cs[j].original
        } by {
            let _ = all[k].class_obfuscated == cs[j].obfuscated;
        }
        lemma_cached_span_members(all, spans, cs, j);
    }
}

/// The cached members of the span of class `j` are members of that class.
proof fn lemma_cached_span_members(all: Seq<MemberModel>, spans: Seq<SpanModel>, cs: Seq<ClassModel>, j: int)
    requires
        spans_tile(spans, all.len() as int),
        spans.len() == cs.len(),
        0 <= j < spans.len(),
        forall|k: int|
            spans[j].first <= k < spans[j].first + spans[j].len ==> {
                &&& 0 <= k < all.len()
                &&& (#[trigger] all[k]).class_obfuscated == cs[j].obfuscated
                &&& all[k].class_original == cs[j].original
            },
    ensures
        ({
            let cp = cached_spans(all, spans);
            let ms = cached_members(all);
            &&& cp[j].first + cp[j].len <= ms.len()
            &&& forall|k: int|
                cp[j].first <= k < cp[j].first + cp[j].len ==> {
                    &&& 0 <= k < ms.len()
                    &&& #[trigger] ms[k].class_obfuscated == cs[j].obfuscated
                    &&& ms[k].class_original == cs[j].original
                }
        }),
{
    let cp = cached_spans(all, spans);
    let ms = cached_members(all);
        let sp = spans[j];
        assert(cp[j] == cached_span(all, sp));
        lemma_sum_mono(spans, j + 1, spans.len() as int);
        lemma_sum_mono(spans, 0, j);
        assert(spans[j].first == span_sum(spans, j));
        let a = sp.first;
        let b = sp.first + sp.len;
        assert(span_sum(spans, j + 1) == b);
        assert(all =~= all.subrange(0, a) + all.subrange(a, b) + all.subrange(b, all.len() as int));
        lemma_keep_concat(all, all.subrange(0, a) + all.subrange(a, b), all.subrange(b, all.len() as int));
        lemma_keep_concat(all, all.subrange(0, a), all.subrange(a, b));
        let ka = keep(all, all.subrange(0, a));
        let kb = keep(all, all.subrange(a, b));
        assert(ms.subrange(ka.len() as int, (ka.len() + kb.len()) as int) =~= kb);
        let c = cs[j];
        let p = |x: MemberModel| x.class_obfuscated == c.obfuscated && x.class_original == c.original;
        assert forall|i: int| 0 <= i < all.subrange(a, b).len() implies p(#[trigger] all.subrange(a, b)[i]) by {
            assert(all.subrange(a, b)[i] == all[a + i]);
            assert(spans[j].first <= a + i < spans[j].first + spans[j].len);
            assert(all[a + i].class_obfuscated == cs[j].obfuscated);
        }
        lemma_keep_all(all, all.subrange(a, b), p);
        assert forall|k: int| cp[j].first <= k < cp[j].first + cp[j].len implies {
            &&& 0 <= k < ms.len()
            &&& #[trigger] ms[k].class_obfuscated == cs[j].obfuscated
            &&& ms[k].class_original == cs[j].original
        } by {
            assert(ms[k] == kb[k - ka.len()]);
            assert(p(kb[k - ka.len()]));
        }
}

/// Whether member `k` is left out of a cache of the members.
fn is_dropped(members: &Vec<MemberEntry>, k: usize) -> (r: bool)
    requires
        k < members@.len(),
    ensures
        r == dropped(members_model(members@), members_model(members@)[k as int]),
{
    let ghost ms = members_model(members@);
    let m = &members[k];
    proof {
        assert(ms[k as int] == m@);
    }
    if !(m.startline == 0 && m.endline == 0) {
        return false;
    }
    let mut j: usize = 0;
    while j < members.len()
        invariant
            j <= members@.len(),
            k < members@.len(),
            ms == members_model(members@),
            ms[k as int] == m@,
            ms[k as int].startline == 0 && ms[k as int].endline == 0,
            forall|i: int|
                0 <= i < j ==> !((#[trigger] ms[i]).class_obfuscated == ms[k as int].class_obfuscated
                    && ms[i].obfuscated == ms[k as int].obfuscated && ms[i].endline > 0),
        decreases members@.len() - j,
    {
        let o = &members[j];
        proof {
            assert(ms[j as int] == o@);
        }
        if o.endline > 0 && str_eq(o.class_obfuscated, m.class_obfuscated) && str_eq(
            o.obfuscated,
            m.obfuscated,
        ) {
            proof {
                assert(ms[j as int].class_obfuscated == ms[k as int].class_obfuscated);
                assert(ms[j as int].obfuscated == ms[k as int].obfuscated);
                assert(ms[j as int].endline > 0);
                assert(method_has_lines(ms, ms[k as int]));
                assert(ms[k as int].startline == 0 && ms[k as int].endline == 0);
            }
            return true;
        }
        j = j + 1;
    }
    false
}

/// The members that a cache of the members holds.
pub fn cache_members<'s>(members: Vec<MemberEntry<'s>>) -> (r: Vec<MemberEntry<'s>>)
    ensures
        members_model(r@) == cached_members(members_model(members@)),
{
    let ghost orig = members@;
    let ghost ms = members_model(orig);
    let n = members.len();
    let mut flags: Vec<bool> = Vec::new();
    let mut k: usize = 0;
    while k < n
        invariant
            n == members@.len(),
            k <= n,
            ms == members_model(members@),
            flags@.len() == k,
            forall|i: int| 0 <= i < k ==> #[trigger] flags@[i] == dropped(ms, ms[i]),
        decreases n - k,
    {
        let d = is_dropped(&members, k);
        flags.push(d);
        k = k + 1;
    }
    let mut src = members;
    let mut tmp: Vec<MemberEntry<'s>> = Vec::new();
    while src.len() > 0
        invariant
            n == orig.len(),
            src@.len() <= n,
            src@ == orig.subrange(0, src@.len() as int),
            tmp@.len() == n - src@.len(),
            forall|j: int| 0 <= j < tmp@.len() ==> #[trigger] tmp@[j] == orig[n - 1 - j],
        decreases src@.len(),
    {
        let x = src.pop().unwrap();
        tmp.push(x);
    }
    let mut out: Vec<MemberEntry<'s>> = Vec::new();
    let mut k: usize = 0;
    proof {
        assert(ms.subrange(0, 0) =~= Seq::<MemberModel>::empty());
        assert(members_model(out@) =~= Seq::<MemberModel>::empty());
    }
    while k < n
        invariant
            n == orig.len(),
            k <= n,
            ms == members_model(orig),
            flags@.len() == n,
            forall|i: int| 0 <= i < n ==> #[trigger] flags@[i] == dropped(ms, ms[i]),
            tmp@.len() == n - k,
            forall|j: int| 0 <= j < tmp@.len() ==> #[trigger] tmp@[j] == orig[n - 1 - j],
            members_model(out@) == keep(ms, ms.subrange(0, k as int)),
        decreases n - k,
    {
        let x = tmp.pop().unwrap();
        proof {
            assert(x == orig[k as int]);
            assert(ms.subrange(0, k + 1).drop_last() =~= ms.subrange(0, k as int));
            assert(ms.subrange(0, k + 1).last() == ms[k as int]);
            assert(ms[k as int] == x@);
        }
        let ghost before = out@;
        if !flags[k] {
            out.push(x);
            proof {
                assert(members_model(out@) =~= members_model(before).push(x@));
            }
        }
        k = k + 1;
    }
    proof {
        assert(ms.subrange(0, n as int) =~= ms);
    }
    out
}

/// The number of cached members among the first `i` members, for each `i`.
fn kept_counts(members: &Vec<MemberEntry>) -> (r: Vec<usize>)
    ensures
        r@.len() == members@.len() + 1,
        forall|i: int|
            0 <= i <= members@.len() ==> #[trigger] r@[i] == keep(
                members_model(members@),
                members_model(members@).subrange(0, i),
            ).len(),
{
    let ghost ms = members_model(members@);
    let mut out: Vec<usize> = Vec::new();
    out.push(0);
    let mut c: usize = 0;
    let mut k: usize = 0;
    proof {
        assert(ms.subrange(0, 0) =~= Seq::<MemberModel>::empty());
    }
    while k < members.len()
        invariant
            k <= members@.len(),
            ms == members_model(members@),
            out@.len() == k + 1,
            c == out@[k as int],
            forall|i: int| 0 <= i <= k ==> #[trigger] out@[i] == keep(ms, ms.subrange(0, i)).len(),
        decreases members@.len() - k,
    {
        proof {
            assert(ms.subrange(0, k + 1).drop_last() =~= ms.subrange(0, k as int));
            assert(ms.subrange(0, k + 1).last() == ms[k as int]);
            lemma_keep_len(ms, ms.subrange(0, k as int));
        }
        let d = is_dropped(members, k);
        if !d {
            c = c + 1;
        }
        out.push(c);
        k = k + 1;
    }
    out
}

/// Where the members of each class stand among the cached members.
pub fn cache_spans(members: &Vec<MemberEntry>, spans: &Vec<Span>) -> (r: Vec<Span>)
    requires
        forall|i: int| 0 <= i < spans@.len() ==> #[trigger] spans@[i].first + spans@[i].len <= members@.len(),
    ensures
        r@.len() == spans@.len(),
        spans_model(r@) == cached_spans(members_model(members@), spans_model(spans@)),
        forall|i: int|
            0 <= i < r@.len() ==> #[trigger] r@[i].first + r@[i].len <= cached_members(
                members_model(members@),
            ).len(),
{
    let ghost ms = members_model(members@);
    let counts = kept_counts(members);
    let mut out: Vec<Span> = Vec::new();
    let mut i: usize = 0;
    while i < spans.len()
        invariant
            i <= spans@.len(),
            ms == members_model(members@),
            counts@.len() == members@.len() + 1,
            forall|j: int| 0 <= j <= members@.len() ==> #[trigger] counts@[j] == keep(ms, ms.subrange(0, j)).len(),
            forall|j: int| 0 <= j < spans@.len() ==> #[trigger] spans@[j].first + spans@[j].len <= members@.len(),
            out@.len() == i,
            forall|j: int| 0 <= j < i ==> #[trigger] out@[j]@ == cached_span(ms, spans@[j]@),
        decreases spans@.len() - i,
    {
        let sp = spans[i];
        let _mlen = members.len();
        proof {
            assert(spans@[i as int].first + spans@[i as int].len <= members@.len());
            assert(sp == spans@[i as int]);
            assert(sp.first + sp.len <= members@.len());
        }
        let a = sp.first;
        let b = sp.first + sp.len;
        proof {
            assert(ms.subrange(0, b as int) =~= ms.subrange(0, a as int) + ms.subrange(a as int, b as int));
            lemma_keep_concat(ms, ms.subrange(0, a as int), ms.subrange(a as int, b as int));
        }
        out.push(Span { first: counts[a], len: counts[b] - counts[a] });
        i = i + 1;
    }
    proof {
        assert(spans_model(out@) =~= cached_spans(ms, spans_model(spans@)));
        assert forall|i: int| 0 <= i < out@.len() implies #[trigger] out@[i].first + out@[i].len
            <= cached_members(ms).len() by {
            assert(out@[i]@ == cached_span(ms, spans@[i]@));
            assert(spans@[i].first + spans@[i].len <= members@.len());
            lemma_cached_span_bounds(ms, spans@[i]@);
        }
    }
    out
}

} // verus!
