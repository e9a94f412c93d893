//! The systems that move things: perturbation, integration, and a
//! placeholder for behaviour.

use crate::components::{Pos, Transform};
use crate::geometry::{clamp_coord, clamp_to_coord, shifted, Pt, UNIT};
use crate::random::{draw, seeded};
use crate::storage::Storage;
use rand::rngs::StdRng;
use rayon::iter::{IndexedParallelIterator, IntoParallelRefMutIterator, ParallelIterator};
use vstd::prelude::*;

verus! {

/// A pending displacement of at most `amplitude` on each axis.
pub open spec fn within(t: Transform, amplitude: u32) -> bool {
    &&& -amplitude <= t.0.x <= amplitude
    &&& -amplitude <= t.0.y <= amplitude
}

/// `post` is what a perturbation of at most `amplitude` may leave of `pre`:
/// the same slots hold a pending displacement, each of at most `amplitude`
/// on each axis.
pub open spec fn perturbed(pre: Map<int, Transform>, post: Map<int, Transform>, amplitude: u32) -> bool {
    &&& post.dom() == pre.dom()
    &&& forall|k: int| #[trigger] post.contains_key(k) ==> within(post[k], amplitude)
}

/// The pending displacement made of two draws.
pub open spec fn drawn(sx: int, sy: int) -> Transform {
    Transform(Pt { x: clamp_coord(sx) as i32, y: clamp_coord(sy) as i32 })
}

/// Gives every entity a random pending displacement.
pub struct BumpSystem {
    rng: StdRng,
    amplitude: u32,
}

impl BumpSystem {
    /// The largest displacement, on each axis, that this system gives.
    pub closed spec fn amplitude(&self) -> u32 {
        self.amplitude
    }

    /// A system seeded with zeros that displaces by up to three world units
    /// on each axis.
    pub fn new() -> (s: Self)
        ensures
            s.amplitude() == 3 * UNIT,
    {
        BumpSystem { rng: seeded([0u8;32]), amplitude: 3 * (UNIT as u32) }
    }

    /// A system seeded with `seed` that displaces by up to `amplitude` on
    /// each axis.
    pub fn with(seed: [u8; 32], amplitude: u32) -> (s: Self)
        ensures
            s.amplitude() == amplitude,
    {
        BumpSystem { rng: seeded(seed), amplitude }
    }

    /// Replaces the pending displacement of slot `k` by the one made of the
    /// draws `sx` and `sy`.
    pub fn displace(tra: &mut Storage<Transform>, k: usize, sx: i64, sy: i64)
        ensures
            final(tra)@ == old(tra)@.insert(k as int, drawn(sx as int, sy as int)),
    {
        tra.insert(k, Transform(Pt { x: clamp_to_coord(sx as i128), y: clamp_to_coord(sy as i128) }));
    }

    /// Replaces every pending displacement by a fresh one, each coordinate
    /// drawn from `-amplitude` to `amplitude`. The draws are made slot by
    /// slot in ascending order, first `x`, then `y`.
    pub fn run(&mut self, tra: &mut Storage<Transform>)
        ensures
            final(self).amplitude() == old(self).amplitude(),
            perturbed(old(tra)@, final(tra)@, old(self).amplitude()),
    {
        let n: usize = tra.span();
        let low: i64 = -(self.amplitude as i64);
        let high: i64 = self.amplitude as i64 + 1;
        let mut k: usize = 0;
        while k < n
            invariant
                self.amplitude == old(self).amplitude,
                low == -(self.amplitude as i64),
                high == self.amplitude + 1,
                tra@.dom() == old(tra)@.dom(),
                forall|j: int| old(tra)@.contains_key(j) ==> 0 <= j < n,
                forall|j: int| 0 <= j < k && #[trigger] tra@.contains_key(j) ==> within(tra@[j], self.amplitude),
            decreases n - k,
        {
            if tra.contains(k) {
                let sx: i64 = draw(&mut self.rng, low, high);
                let sy: i64 = draw(&mut self.rng, low, high);
                let ghost before = tra@;
                Self::displace(tra, k, sx, sy);
                assert(tra@.dom() =~= before.dom());
            }
            k += 1;
        }
    }
}

/// The position after integration: moved by the pending displacement, where
/// there is one, and stopped at the edge of the coordinate range.
pub open spec fn moved(p: Pos, t: Option<Transform>) -> Pos {
    match t {
        Some(d) => Pos(shifted(p.0, d.0.x as int, d.0.y as int)),
        None => p,
    }
}

/// The positions after integration.
pub open spec fn moved_all(pos: Map<int, Pos>, tra: Map<int, Transform>) -> Map<int, Pos> {
    Map::new(
        |k: int| pos.contains_key(k),
        |k: int|
            moved(
                pos[k],
                if tra.contains_key(k) {
                    Some(tra[k])
                } else {
                    None
                },
            ),
    )
}

/// The pending displacements after integration: nothing is pending for a
/// slot that has a position.
pub open spec fn spent_all(pos: Map<int, Pos>, tra: Map<int, Transform>) -> Map<int, Transform> {
    Map::new(
        |k: int| tra.contains_key(k),
        |k: int|
            if pos.contains_key(k) {
                Transform(Pt { x: 0, y: 0 })
            } else {
                tra[k]
            },
    )
}

/// Integration of one slot: where it has a position and a pending
/// displacement, the position makes the movement and nothing stays pending.
pub fn integrate_slot(p: &mut Option<Pos>, t: &mut Option<Transform>)
    ensures
        *final(p) == match *old(p) {
            Some(at) => Some(moved(at, *old(t))),
            None => None,
        },
        *final(t) == match (*old(p), *old(t)) {
            (Some(_), Some(_)) => Some(Transform(Pt { x: 0, y: 0 })),
            _ => *old(t),
        },
{
    match (*p, *t) {
        (Some(at), Some(d)) => {
            *p = Some(Pos(at.0.shifted(d.0.x as i128, d.0.y as i128)));
            *t = Some(Transform::new());
        },
        _ => {},
    }
}

/// `rayon`'s `par_iter_mut`, `zip` and `for_each`: `integrate_slot` is run,
/// in parallel, once on each slot that both stores reach. The contract says
/// of every slot what `integrate_slot` leaves there; a slot that one of the
/// stores does not reach has no position or nothing pending, and is not
/// touched.
#[verifier::external_body]
fn integrate_all(pos: &mut Storage<Pos>, tra: &mut Storage<Transform>)
    ensures
        final(pos)@ == moved_all(old(pos)@, old(tra)@),
        final(tra)@ == spent_all(old(pos)@, old(tra)@),
{
    pos.slots.par_iter_mut().zip(tra.slots.par_iter_mut()).for_each(|(p, t)| integrate_slot(p, t));
}

/// Makes the pending movements.
pub struct PhysicsSystem;

impl PhysicsSystem {
    /// Integration: every slot with a position and a pending displacement
    /// moves by it, and its pending displacement becomes zero.
    pub fn run(&mut self, pos: &mut Storage<Pos>, tra: &mut Storage<Transform>)
        ensures
            final(pos)@ == moved_all(old(pos)@, old(tra)@),
            final(tra)@ == spent_all(old(pos)@, old(tra)@),
    {
        integrate_all(pos, tra);
    }
}

/// Behaviour of the entities. It reads the positions and, so far, does
/// nothing.
pub struct AiSystem;

impl AiSystem {
    pub fn run(&mut self, pos: &Storage<Pos>) {
    }
}

} // verus!
