//! What a ray meets: the record of a crossing, the surfaces that can be
//! crossed, and a scene of several of them.

use vstd::prelude::*;
use crate::ray::Ray;
use crate::scalar::Scalar;
use crate::vec3::Vec3;

verus! {

/// Where a ray met a surface: the distance `t` along the ray, the point `p`
/// there and the surface normal at `p`.
#[derive(Copy, Clone, Debug, PartialEq)]
pub struct HitRecord {
    pub t: Scalar,
    pub p: Vec3,
    pub normal: Vec3,
}

impl HitRecord {
    /// The triple `(x, y, z)`.
    pub fn new(x: Scalar, y: Scalar, z: Scalar) -> (v: Vec3)
        ensures
            v == (Vec3 { x, y, z }),
    {
        Vec3 { x, y, z }
    }
}

/// A surface that a ray can cross.
///
/// `hit` looks for a crossing at a distance strictly between `t_min` and
/// `t_max` and reports the one closest to `t_min`. The answer depends on the
/// surface and the arguments alone: `spec_hit` names it. Whether a surface
/// answers in this way is not checked here where its `hit` is not verified
/// code; `keeps_protocol` says what the laws of a scene ask of its members.
pub trait Hit {
    /// What `hit` reports for `r` between `t_min` and `t_max`. A surface
    /// whose `hit` is not verified code defines this as the call of `hit`
    /// with the same arguments.
    spec fn spec_hit(&self, r: Ray, t_min: Scalar, t_max: Scalar) -> Option<HitRecord>;

    fn hit(&self, r: &Ray, t_min: Scalar, t_max: Scalar) -> (rec: Option<HitRecord>)
        ensures
            rec == self.spec_hit(*r, t_min, t_max),
    ;
}

/// A scene: surfaces that live elsewhere, in the order in which they were
/// added. The members may be of one kind, or of any kind (`dyn Hit`, which
/// is what `HitList<'a>` alone stands for).
pub struct HitList<'a, H: Hit + ?Sized = dyn Hit + 'a> {
    pub vec: Vec<&'a H>,
}

/// The upper end of the interval that is left once `found` is known: the
/// distance of the crossing found, or else `t_max`.
pub open spec fn bound_after(found: Option<HitRecord>, t_max: Scalar) -> Scalar {
    match found {
        Some(rec) => rec.t,
        None => t_max,
    }
}

/// What a scene of `members` reports: each member in turn is asked for a
/// crossing closer than the one found so far, and the last answer stands.
pub open spec fn closest_hit<H: Hit + ?Sized>(
    members: Seq<&H>,
    r: Ray,
    t_min: Scalar,
    t_max: Scalar,
) -> Option<HitRecord>
    decreases members.len(),
{
    if members.len() == 0 {
        None
    } else {
        let earlier = closest_hit(members.drop_last(), r, t_min, t_max);
        match members.last().spec_hit(r, t_min, bound_after(earlier, t_max)) {
            Some(rec) => Some(rec),
            None => earlier,
        }
    }
}

/// What is left of an answer once the upper end of the interval has moved
/// down to `t_max`: the same crossing if it is still closer than `t_max`.
pub open spec fn within(found: Option<HitRecord>, t_max: Scalar) -> Option<HitRecord> {
    match found {
        Some(rec) => if rec.t.spec_lt(t_max) {
            Some(rec)
        } else {
            None
        },
        None => None,
    }
}

/// The surface answers for `r` above `t_min` as one that reports, of a fixed
/// set of crossings, the closest one inside the interval: what it reports
/// lies strictly between the two ends, and with a lower upper end it reports
/// the same crossing if that is still inside, and nothing otherwise.
pub open spec fn keeps_protocol<H: Hit + ?Sized>(h: &H, r: Ray, t_min: Scalar) -> bool {
    &&& forall|t_max: Scalar|
        (#[trigger] h.spec_hit(r, t_min, t_max)) matches Some(rec) ==> t_min.spec_lt(rec.t)
            && rec.t.spec_lt(t_max)
    &&& forall|t_max: Scalar, nearer: Scalar|
        #![trigger h.spec_hit(r, t_min, t_max), h.spec_hit(r, t_min, nearer)]
        nearer.spec_le(t_max) ==> h.spec_hit(r, t_min, nearer) == within(
            h.spec_hit(r, t_min, t_max),
            nearer,
        )
}

/// Every member of the scene keeps the protocol.
pub open spec fn all_keep_protocol<H: Hit + ?Sized>(
    members: Seq<&H>,
    r: Ray,
    t_min: Scalar,
) -> bool {
    forall|i: int| 0 <= i < members.len() ==> #[trigger] keeps_protocol(members[i], r, t_min)
}

/// No member reports a crossing for the whole interval.
pub open spec fn all_miss<H: Hit + ?Sized>(
    members: Seq<&H>,
    r: Ray,
    t_min: Scalar,
    t_max: Scalar,
) -> bool {
    forall|i: int|
        0 <= i < members.len() ==> #[trigger] members[i].spec_hit(r, t_min, t_max) is None
}

/// `rec` is what some member reports for the whole interval, and no member
/// reports a crossing that is closer.
pub open spec fn is_nearest<H: Hit + ?Sized>(
    members: Seq<&H>,
    r: Ray,
    t_min: Scalar,
    t_max: Scalar,
    rec: HitRecord,
) -> bool {
    &&& exists|i: int|
        0 <= i < members.len() && #[trigger] members[i].spec_hit(r, t_min, t_max) == Some(rec)
    &&& forall|j: int|
        0 <= j < members.len() ==> (#[trigger] members[j].spec_hit(r, t_min, t_max) matches Some(
            other,
        ) ==> rec.t.spec_le(other.t))
}

/// A scene whose members keep the protocol reports nothing exactly when no
/// member has a crossing in the interval, and otherwise the crossing of a
/// member than which no member has a closer one.
pub proof fn lemma_closest_hit_is_nearest<H: Hit + ?Sized>(
    members: Seq<&H>,
    r: Ray,
    t_min: Scalar,
    t_max: Scalar,
)
    requires
        all_keep_protocol(members, r, t_min),
    ensures
        closest_hit(members, r, t_min, t_max) is None <==> all_miss(members, r, t_min, t_max),
        closest_hit(members, r, t_min, t_max) matches Some(rec) ==> is_nearest(
            members,
            r,
            t_min,
            t_max,
            rec,
        ),
    decreases members.len(),
{
    if members.len() > 0 {
        let front = members.drop_last();
        let h = members.last();
        let n = front.len() as int;
        assert forall|i: int| 0 <= i < front.len() implies #[trigger] keeps_protocol(
            front[i],
            r,
            t_min,
        ) by {
            assert(front[i] == members[i]);
        }
        lemma_closest_hit_is_nearest(front, r, t_min, t_max);
        let earlier = closest_hit(front, r, t_min, t_max);
        let bound = bound_after(earlier, t_max);
        let alone = h.spec_hit(r, t_min, t_max);
        let asked = h.spec_hit(r, t_min, bound);
        let all = closest_hit(members, r, t_min, t_max);
        assert(h == members[n]);
        assert(keeps_protocol(members[n], r, t_min));
        assert(forall|i: int| 0 <= i < n ==> front[i] == members[i]);
        match earlier {
            None => {
                assert(asked == alone);
                assert(all == alone);
                match alone {
                    None => {
                        assert forall|i: int| 0 <= i < members.len() implies #[trigger] members[i]
                            .spec_hit(r, t_min, t_max) is None by {
                            if i < n {
                                assert(front[i].spec_hit(r, t_min, t_max) is None);
                            }
                        }
                    },
                    Some(rec) => {
                        assert(members[n].spec_hit(r, t_min, t_max) == Some(rec));
                        assert forall|j: int| 0 <= j < members.len() implies (
                        #[trigger] members[j].spec_hit(r, t_min, t_max) matches Some(other)
                            ==> rec.t.spec_le(other.t)) by {
                            if j < n {
                                assert(front[j].spec_hit(r, t_min, t_max) is None);
                            }
                        }
                    },
                }
            },
            Some(best) => {
                let w = choose|i: int|
                    0 <= i < front.len() && #[trigger] front[i].spec_hit(r, t_min, t_max) == Some(
                        best,
                    );
                assert(members[w].spec_hit(r, t_min, t_max) == Some(best));
                assert(keeps_protocol(members[w], r, t_min));
                assert(best.t.spec_lt(t_max));
                assert(bound.spec_le(t_max));
                assert(asked == within(alone, bound));
                match asked {
                    Some(rec) => {
                        assert(alone == Some(rec));
                        assert(rec.t.spec_lt(best.t));
                        assert(all == Some(rec));
                        assert(members[n].spec_hit(r, t_min, t_max) == Some(rec));
                        assert forall|j: int| 0 <= j < members.len() implies (
                        #[trigger] members[j].spec_hit(r, t_min, t_max) matches Some(other)
                            ==> rec.t.spec_le(other.t)) by {
                            if j < n {
                                if let Some(other) = front[j].spec_hit(r, t_min, t_max) {
                                    assert(best.t.spec_le(other.t));
                                }
                            }
                        }
                    },
                    None => {
                        assert(all == Some(best));
                        assert forall|j: int| 0 <= j < members.len() implies (
                        #[trigger] members[j].spec_hit(r, t_min, t_max) matches Some(other)
                            ==> best.t.spec_le(other.t)) by {
                            if j < n {
                                if let Some(other) = front[j].spec_hit(r, t_min, t_max) {
                                    assert(best.t.spec_le(other.t));
                                }
                            } else {
                                if let Some(other) = alone {
                                    assert(t_min.spec_lt(other.t));
                                    assert(!other.t.spec_lt(bound));
                                }
                            }
                        }
                    },
                }
                assert(!all_miss(members, r, t_min, t_max));
            },
        }
    }
}

/// A scene whose members keep the protocol keeps it too, so that scenes can
/// be members of scenes.
pub proof fn lemma_scene_keeps_protocol<H: Hit + ?Sized>(list: &HitList<H>, r: Ray, t_min: Scalar)
    requires
        all_keep_protocol(list.vec@, r, t_min),
    ensures
        keeps_protocol(list, r, t_min),
{
    assert forall|t_max: Scalar|
        ((#[trigger] list.spec_hit(r, t_min, t_max)) matches Some(rec) ==> t_min.spec_lt(rec.t)
            && rec.t.spec_lt(t_max)) by {
        lemma_closest_hit_is_nearest(list.vec@, r, t_min, t_max);
        if let Some(rec) = list.spec_hit(r, t_min, t_max) {
            let i = choose|i: int|
                0 <= i < list.vec@.len() && #[trigger] list.vec@[i].spec_hit(r, t_min, t_max)
                    == Some(rec);
            assert(keeps_protocol(list.vec@[i], r, t_min));
        }
    }
    assert forall|t_max: Scalar, nearer: Scalar|
        #![trigger list.spec_hit(r, t_min, t_max), list.spec_hit(r, t_min, nearer)]
        nearer.spec_le(t_max) implies list.spec_hit(r, t_min, nearer) == within(
        list.spec_hit(r, t_min, t_max),
        nearer,
    ) by {
        lemma_closest_hit_shrinks(list.vec@, r, t_min, t_max, nearer);
    }
}

/// With a lower upper end a scene reports the same crossing if that is
/// still inside the interval, and nothing otherwise.
pub proof fn lemma_closest_hit_shrinks<H: Hit + ?Sized>(
    members: Seq<&H>,
    r: Ray,
    t_min: Scalar,
    t_max: Scalar,
    nearer: Scalar,
)
    requires
        all_keep_protocol(members, r, t_min),
        nearer.spec_le(t_max),
    ensures
        closest_hit(members, r, t_min, nearer) == within(
            closest_hit(members, r, t_min, t_max),
            nearer,
        ),
    decreases members.len(),
{
    if members.len() > 0 {
        let front = members.drop_last();
        let h = members.last();
        let n = front.len() as int;
        assert forall|i: int| 0 <= i < front.len() implies #[trigger] keeps_protocol(
            front[i],
            r,
            t_min,
        ) by {
            assert(front[i] == members[i]);
        }
        lemma_closest_hit_shrinks(front, r, t_min, t_max, nearer);
        lemma_closest_hit_is_nearest(front, r, t_min, t_max);
        assert(h == members[n]);
        assert(keeps_protocol(members[n], r, t_min));
        match closest_hit(front, r, t_min, t_max) {
            None => {
                assert(h.spec_hit(r, t_min, nearer) == within(h.spec_hit(r, t_min, t_max), nearer));
            },
            Some(best) => {
                let w = choose|i: int|
                    0 <= i < front.len() && #[trigger] front[i].spec_hit(r, t_min, t_max) == Some(
                        best,
                    );
                assert(keeps_protocol(members[w], r, t_min));
                assert(members[w].spec_hit(r, t_min, t_max) == Some(best));
                assert(best.t.spec_lt(t_max));
                if best.t.spec_lt(nearer) {
                    if let Some(rec) = h.spec_hit(r, t_min, best.t) {
                        assert(rec.t.spec_lt(best.t));
                    }
                } else {
                    assert(nearer.spec_le(best.t));
                    assert(h.spec_hit(r, t_min, nearer) == within(
                        h.spec_hit(r, t_min, best.t),
                        nearer,
                    ));
                    if let Some(rec) = h.spec_hit(r, t_min, best.t) {
                        assert(rec.t.spec_lt(best.t));
                    }
                }
            },
        }
    }
}

/// The order of the members does not matter: two scenes with the same
/// members, each keeping the protocol, both report nothing or report
/// crossings at the same distance; and the same crossing, where no two
/// members have different crossings at one distance.
pub proof fn lemma_closest_hit_any_order<H: Hit + ?Sized>(
    a: Seq<&H>,
    b: Seq<&H>,
    r: Ray,
    t_min: Scalar,
    t_max: Scalar,
)
    requires
        all_keep_protocol(a, r, t_min),
        forall|i: int| 0 <= i < a.len() ==> #[trigger] b.contains(a[i]),
        forall|j: int| 0 <= j < b.len() ==> #[trigger] a.contains(b[j]),
    ensures
        closest_hit(a, r, t_min, t_max) is None <==> closest_hit(b, r, t_min, t_max) is None,
        closest_hit(a, r, t_min, t_max) matches Some(x) ==> closest_hit(
            b,
            r,
            t_min,
            t_max,
        ) matches Some(y) && x.t.spec_eq(y.t),
        (forall|i: int, k: int|
            #![trigger a[i].spec_hit(r, t_min, t_max), a[k].spec_hit(r, t_min, t_max)]
            0 <= i < a.len() && 0 <= k < a.len() ==> (a[i].spec_hit(r, t_min, t_max) matches Some(u)
                ==> (a[k].spec_hit(r, t_min, t_max) matches Some(w) ==> (u.t.spec_eq(w.t) ==> u
                == w)))) ==> closest_hit(a, r, t_min, t_max) == closest_hit(b, r, t_min, t_max),
{
    assert forall|j: int| 0 <= j < b.len() implies #[trigger] keeps_protocol(b[j], r, t_min) by {
        assert(a.contains(b[j]));
        let i = choose|i: int| 0 <= i < a.len() && a[i] == b[j];
        assert(keeps_protocol(a[i], r, t_min));
    }
    lemma_closest_hit_is_nearest(a, r, t_min, t_max);
    lemma_closest_hit_is_nearest(b, r, t_min, t_max);
    let ra = closest_hit(a, r, t_min, t_max);
    let rb = closest_hit(b, r, t_min, t_max);
    if ra is None {
        assert forall|j: int| 0 <= j < b.len() implies #[trigger] b[j].spec_hit(
            r,
            t_min,
            t_max,
        ) is None by {
            assert(a.contains(b[j]));
            let i = choose|i: int| 0 <= i < a.len() && a[i] == b[j];
            assert(a[i].spec_hit(r, t_min, t_max) is None);
        }
    }
    if rb is None {
        assert forall|i: int| 0 <= i < a.len() implies #[trigger] a[i].spec_hit(
            r,
            t_min,
            t_max,
        ) is None by {
            assert(b.contains(a[i]));
            let j = choose|j: int| 0 <= j < b.len() && b[j] == a[i];
            assert(b[j].spec_hit(r, t_min, t_max) is None);
        }
    }
    if let Some(x) = ra {
        if let Some(y) = rb {
            let i = choose|i: int|
                0 <= i < a.len() && #[trigger] a[i].spec_hit(r, t_min, t_max) == Some(x);
            let j = choose|j: int|
                0 <= j < b.len() && #[trigger] b[j].spec_hit(r, t_min, t_max) == Some(y);
            assert(b.contains(a[i]));
            let j2 = choose|j2: int| 0 <= j2 < b.len() && b[j2] == a[i];
            assert(b[j2].spec_hit(r, t_min, t_max) == Some(x));
            assert(y.t.spec_le(x.t));
            assert(a.contains(b[j]));
            let i2 = choose|i2: int| 0 <= i2 < a.len() && a[i2] == b[j];
            assert(a[i2].spec_hit(r, t_min, t_max) == Some(y));
            assert(x.t.spec_le(y.t));
            assert(x.t.spec_eq(y.t));
            assert(a[i].spec_hit(r, t_min, t_max) == Some(x) && a[i2].spec_hit(r, t_min, t_max)
                == Some(y));
        }
    }
}

impl<'a, H: Hit + ?Sized> HitList<'a, H> {
    /// Adds a surface at the end of the scene.
    pub fn push<'b>(&'b mut self, elem: &'a H)
        ensures
            final(self).vec@ == old(self).vec@.push(elem),
    {
        self.vec.push(elem);
    }
}

impl<'a, H: Hit + ?Sized> Default for HitList<'a, H> {
    /// The empty scene.
    fn default() -> (list: HitList<'a, H>)
        ensures
            list.vec@.len() == 0,
    {
        HitList { vec: Vec::new() }
    }
}

impl<'a, H: Hit + ?Sized> Hit for HitList<'a, H> {
    open spec fn spec_hit(&self, r: Ray, t_min: Scalar, t_max: Scalar) -> Option<HitRecord> {
        closest_hit(self.vec@, r, t_min, t_max)
    }

    /// The closest crossing over all surfaces of the scene; nothing for an
    /// empty scene.
    fn hit(&self, r: &Ray, t_min: Scalar, t_max: Scalar) -> (rec: Option<HitRecord>)
        ensures
            self.vec@.len() == 0 ==> rec is None,
    {
        let mut found: Option<HitRecord> = None;
        let mut closest_so_far: Scalar = t_max;
        let n: usize = self.vec.len();
        let mut i: usize = 0;
        while i < n
            invariant
                n == self.vec@.len(),
                i <= n,
                found == closest_hit(self.vec@.take(i as int), *r, t_min, t_max),
                closest_so_far == bound_after(found, t_max),
            decreases n - i,
        {
            proof {
                assert(self.vec@.take(i + 1).drop_last() == self.vec@.take(i as int));
                assert(self.vec@.take(i + 1).last() == self.vec@[i as int]);
            }
            if let Some(rec) = self.vec[i].hit(r, t_min, closest_so_far) {
                found = Some(rec);
                closest_so_far = rec.t;
            }
            i += 1;
        }
        proof {
            assert(self.vec@.take(n as int) == self.vec@);
        }
        found
    }
}

} // verus!
