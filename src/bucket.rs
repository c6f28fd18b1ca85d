//! One grid cell: its hit circles and the narrow-phase test inside it.
use vstd::prelude::*;
use crate::circle::{HitCircle, overlap, overlaps};

verus! {

/// Two hit circles found in contact.
#[derive(Clone, Copy, Debug, PartialEq, Eq, Structural)]
pub struct Collision {
    pub a: HitCircle,
    pub b: HitCircle,
}

/// Every member of `s` that `c` overlaps, in order, as `Collision { a: c, b: member }`.
pub open spec fn probe(s: Seq<HitCircle>, c: HitCircle) -> Seq<Collision>
    decreases s.len(),
{
    if s.len() == 0 {
        Seq::empty()
    } else {
        probe(s.drop_last(), c) + if overlap(c, s.last()) {
            seq![Collision { a: c, b: s.last() }]
        } else {
            Seq::empty()
        }
    }
}

/// Every overlapping pair of `s` that involves a member at position
/// `fixed` or later, each tested once: member `j` against members `0..j`.
/// Members below `fixed` are never tested against each other.
pub open spec fn all_pairs(s: Seq<HitCircle>, fixed: int) -> Seq<Collision>
    decreases s.len(),
{
    if s.len() <= fixed || s.len() == 0 {
        Seq::empty()
    } else {
        all_pairs(s.drop_last(), fixed) + probe(s.drop_last(), s.last())
    }
}

/// The circles of one cell.  The first `fixed` of them form the static
/// baseline (terrain), which is never tested against itself.
#[derive(Debug)]
pub struct Bucket {
    pub circles: Vec<HitCircle>,
    pub fixed: usize,
}

impl Bucket {
    pub open spec fn wf(&self) -> bool {
        self.fixed <= self.circles@.len()
    }

    pub open spec fn view(&self) -> Seq<HitCircle> {
        self.circles@
    }

    pub fn new() -> (r: Bucket)
        ensures
            r.wf(),
            r@ == Seq::<HitCircle>::empty(),
            r.fixed == 0,
    {
        Bucket { circles: Vec::new(), fixed: 0 }
    }

    pub fn len(&self) -> (r: usize)
        ensures
            r == self@.len(),
    {
        self.circles.len()
    }

    /// A bucket with the same circles and the same baseline.
    pub fn duplicate(&self) -> (r: Bucket)
        requires
            self.wf(),
        ensures
            r.wf(),
            r@ == self@,
            r.fixed == self.fixed,
    {
        let mut v: Vec<HitCircle> = Vec::new();
        let mut i: usize = 0;
        while i < self.circles.len()
            invariant
                i <= self@.len(),
                v@ == self@.take(i as int),
            decreases self@.len() - i,
        {
            v.push(self.circles[i]);
            assert(self@.take(i + 1) == self@.take(i as int).push(self@[i as int]));
            i = i + 1;
        }
        assert(self@.take(self@.len() as int) == self@);
        Bucket { circles: v, fixed: self.fixed }
    }

    /// Appends a circle.
    pub fn insert(&mut self, c: HitCircle)
        requires
            old(self).wf(),
        ensures
            final(self).wf(),
            final(self)@ == old(self)@.push(c),
            final(self).fixed == old(self).fixed,
    {
        self.circles.push(c);
    }

    /// Makes every current circle part of the static baseline.
    pub fn freeze(&mut self)
        ensures
            final(self).wf(),
            final(self)@ == old(self)@,
            final(self).fixed == old(self)@.len(),
    {
        self.fixed = self.circles.len();
    }

    fn collide_prefix(&self, len: usize, c: &HitCircle, out: &mut Vec<Collision>)
        requires
            len <= self@.len(),
        ensures
            final(out)@ == old(out)@ + probe(self@.take(len as int), *c),
    {
        let mut i: usize = 0;
        while i < len
            invariant
                i <= len <= self@.len(),
                out@ == old(out)@ + probe(self@.take(i as int), *c),
            decreases len - i,
        {
            let m = self.circles[i];
            proof {
                assert(self@.take(i + 1).drop_last() == self@.take(i as int));
            }
            if overlaps(c, &m) {
                out.push(Collision { a: *c, b: m });
            }
            proof {
                let s = self@.take(i as int);
                let t = self@.take(i + 1);
                assert(t.last() == m);
                if overlap(*c, m) {
                    assert(out@ == old(out)@ + probe(s, *c) + seq![Collision { a: *c, b: m }]);
                } else {
                    assert(probe(t, *c) == probe(s, *c) + Seq::<Collision>::empty());
                }
                assert(out@ == old(out)@ + probe(t, *c));
            }
            i = i + 1;
        }
    }

    /// Tests a candidate against every member; appends each overlap to `out`.
    pub fn collide(&self, c: &HitCircle, out: &mut Vec<Collision>)
        ensures
            final(out)@ == old(out)@ + probe(self@, *c),
    {
        self.collide_prefix(self.circles.len(), c, out);
        assert(self@.take(self@.len() as int) == self@);
    }

    /// Tests every pair of members once, except pairs of two baseline
    /// circles; appends each overlap to `out`.
    pub fn collide_all(&self, out: &mut Vec<Collision>)
        requires
            self.wf(),
        ensures
            final(out)@ == old(out)@ + all_pairs(self@, self.fixed as int),
    {
        let n = self.circles.len();
        let mut j: usize = self.fixed;
        proof {
            lemma_all_pairs_below(self@.take(j as int), self.fixed as int);
        }
        while j < n
            invariant
                self.fixed <= j <= n == self@.len(),
                out@ == old(out)@ + all_pairs(self@.take(j as int), self.fixed as int),
            decreases n - j,
        {
            let c = self.circles[j];
            self.collide_prefix(j, &c, out);
            proof {
                let t = self@.take(j + 1);
                assert(t.drop_last() == self@.take(j as int));
                assert(t.last() == c);
                assert(all_pairs(t, self.fixed as int) == all_pairs(self@.take(j as int), self.fixed as int)
                    + probe(self@.take(j as int), c));
                vstd::seq_lib::lemma_concat_associative(
                    old(out)@,
                    all_pairs(self@.take(j as int), self.fixed as int),
                    probe(self@.take(j as int), c),
                );
            }
            j = j + 1;
        }
        assert(self@.take(n as int) == self@);
    }
}

proof fn lemma_all_pairs_below(s: Seq<HitCircle>, fixed: int)
    requires
        s.len() <= fixed,
    ensures
        all_pairs(s, fixed) == Seq::<Collision>::empty(),
{
}

/// Every reported pair of a probe is an overlap whose first circle is the candidate.
pub proof fn lemma_probe_sound(s: Seq<HitCircle>, c: HitCircle)
    ensures
        forall|k: int| 0 <= k < probe(s, c).len() ==> #[trigger] probe(s, c)[k].a == c
            && overlap(probe(s, c)[k].a, probe(s, c)[k].b),
    decreases s.len(),
{
    if s.len() > 0 {
        lemma_probe_sound(s.drop_last(), c);
        let l = probe(s.drop_last(), c);
        let t: Seq<Collision> = if overlap(c, s.last()) {
            seq![Collision { a: c, b: s.last() }]
        } else {
            Seq::empty()
        };
        assert forall|k: int| 0 <= k < probe(s, c).len() implies #[trigger] probe(s, c)[k].a == c
            && overlap(probe(s, c)[k].a, probe(s, c)[k].b) by {
            if k < l.len() {
                assert(probe(s, c)[k] == l[k]);
            } else {
                assert(probe(s, c)[k] == t[k - l.len()]);
            }
        }
    }
}

/// Every reported pair of a bucket's all-pairs test is an overlap.
pub proof fn lemma_all_pairs_sound(s: Seq<HitCircle>, fixed: int)
    ensures
        forall|k: int| 0 <= k < all_pairs(s, fixed).len() ==> overlap(
            #[trigger] all_pairs(s, fixed)[k].a,
            all_pairs(s, fixed)[k].b,
        ),
    decreases s.len(),
{
    if !(s.len() <= fixed || s.len() == 0) {
        lemma_all_pairs_sound(s.drop_last(), fixed);
        lemma_probe_sound(s.drop_last(), s.last());
        let l = all_pairs(s.drop_last(), fixed);
        let r = probe(s.drop_last(), s.last());
        assert forall|k: int| 0 <= k < all_pairs(s, fixed).len() implies overlap(
            #[trigger] all_pairs(s, fixed)[k].a,
            all_pairs(s, fixed)[k].b,
        ) by {
            if k < l.len() {
                assert(all_pairs(s, fixed)[k] == l[k]);
            } else {
                assert(all_pairs(s, fixed)[k] == r[k - l.len()]);
            }
        }
    }
}

/// Team exemption: no pair of circles that share a non-zero layer is ever
/// reported by the narrow phase, whatever their distance, whether a
/// candidate is probed against a bucket or a bucket is tested all-pairs.
pub proof fn lemma_same_layer_never_reported(s: Seq<HitCircle>, c: HitCircle, fixed: int)
    ensures
        forall|k: int| 0 <= k < probe(s, c).len() ==> !(#[trigger] probe(s, c)[k].a.layer
            == probe(s, c)[k].b.layer && probe(s, c)[k].a.layer != 0),
        forall|k: int| 0 <= k < all_pairs(s, fixed).len() ==> !(
        #[trigger] all_pairs(s, fixed)[k].a.layer == all_pairs(s, fixed)[k].b.layer
            && all_pairs(s, fixed)[k].a.layer != 0),
{
    lemma_probe_sound(s, c);
    lemma_all_pairs_sound(s, fixed);
}

/// Two circles whose centres are closer than the sum of their radii, with
/// differing or neutral layers, are reported exactly once when one is
/// probed against a bucket that holds the other.
pub proof fn lemma_contact_reported_once(a: HitCircle, b: HitCircle)
    requires
        crate::circle::dist_sq(a, b) < (a.rad + b.rad) * (a.rad + b.rad),
        crate::circle::layers_collide(a.layer, b.layer),
    ensures
        probe(seq![b], a) == seq![Collision { a: a, b: b }],
{
    let s = seq![b];
    assert(s.drop_last() == Seq::<HitCircle>::empty());
    assert(probe(s.drop_last(), a) == Seq::<Collision>::empty());
    assert(probe(s, a) == Seq::<Collision>::empty() + seq![Collision { a: a, b: b }]);
}

/// A probe reports exactly the members that the candidate overlaps.
pub proof fn lemma_probe_members(s: Seq<HitCircle>, c: HitCircle)
    ensures
        forall|k: int| 0 <= k < probe(s, c).len() ==> s.contains(#[trigger] probe(s, c)[k].b),
        forall|x: HitCircle| s.contains(x) && overlap(c, x) ==> probe(s, c).contains(
            Collision { a: c, b: x },
        ),
    decreases s.len(),
{
    if s.len() > 0 {
        let p = s.drop_last();
        lemma_probe_members(p, c);
        let l = probe(p, c);
        let t: Seq<Collision> = if overlap(c, s.last()) {
            seq![Collision { a: c, b: s.last() }]
        } else {
            Seq::empty()
        };
        assert(probe(s, c) == l + t);
        assert forall|k: int| 0 <= k < probe(s, c).len() implies s.contains(#[trigger] probe(s, c)[k].b) by {
            if k < l.len() {
                assert(probe(s, c)[k] == l[k]);
                assert(p.contains(l[k].b));
                let j = choose|j: int| 0 <= j < p.len() && p[j] == l[k].b;
                assert(s[j] == p[j]);
            } else {
                assert(probe(s, c)[k] == t[k - l.len()]);
                assert(s[s.len() - 1] == s.last());
            }
        }
        assert forall|x: HitCircle| s.contains(x) && overlap(c, x) implies probe(s, c).contains(
            Collision { a: c, b: x },
        ) by {
            let j = choose|j: int| 0 <= j < s.len() && s[j] == x;
            if j < p.len() {
                assert(p[j] == x);
                assert(p.contains(x));
                assert(l.contains(Collision { a: c, b: x }));
                let k = choose|k: int| 0 <= k < l.len() && l[k] == Collision { a: c, b: x };
                assert(probe(s, c)[k] == l[k]);
            } else {
                assert(probe(s, c)[l.len() as int] == t[0]);
            }
        }
    }
}

} // verus!
