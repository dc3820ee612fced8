//! Many Pauli frames, tracked through a Clifford circuit.
use vstd::prelude::*;

use super::{represents_by, Pauli, PauliStorage, PauliString, PauliVec};
use crate::bits::{encode, x_of, z_of};
use crate::boolean_vector::{falses, xor_seq};
use crate::boolean_vector::packed::{bv_set, bv_xor};

verus! {

/// Whether `new` holds the stack of `q` in `old` with one more frame, the Pauli
/// (X if `x`)(Z if `z`) if `q` is `qubit`, else the identity.
pub open spec fn frame_pushed_at(
    old: Map<usize, PauliVec>,
    new: Map<usize, PauliVec>,
    q: usize,
    qubit: Option<usize>,
    x: bool,
    z: bool,
) -> bool {
    &&& new[q].xs() == old[q].xs().push(qubit == Some(q) && x)
    &&& new[q].zs() == old[q].zs().push(qubit == Some(q) && z)
}

/// Whether `new` holds the stacks of `old`, each with one more frame: the Pauli
/// (X if `x`)(Z if `z`) on `qubit`, if there is one, identities on the other qubits.
pub open spec fn pushed_frame(
    old: Map<usize, PauliVec>,
    new: Map<usize, PauliVec>,
    qubit: Option<usize>,
    x: bool,
    z: bool,
) -> bool {
    &&& new.dom() == old.dom()
    &&& forall|q: usize| #[trigger] new.contains_key(q) ==> frame_pushed_at(old, new, q, qubit, x, z)
}

/// Whether every stack has fewer than `usize::MAX` frames, so that one more fits.
pub open spec fn room_for_frame(m: Map<usize, PauliVec>) -> bool {
    forall|q: usize|
        #[trigger] m.contains_key(q) ==> m[q].xs().len() < usize::MAX && m[q].zs().len() < usize::MAX
}

/// The Pauli that the last pair of the string for `q` holds, if any.
pub open spec fn last_pauli(s: Seq<(usize, Pauli)>, q: usize) -> Option<Pauli>
    decreases s.len(),
{
    if s.len() == 0 {
        None
    } else if s.last().0 == q {
        Some(s.last().1)
    } else {
        last_pauli(s.drop_last(), q)
    }
}

/// The components `base` with the one at `pos` overwritten by the component of `p` that
/// `comp` picks, if there is a Pauli.
pub open spec fn written(base: Seq<bool>, pos: int, p: Option<Pauli>, comp: spec_fn(u8) -> bool) -> Seq<bool> {
    match p {
        Some(p) => base.update(pos, comp(p.code())),
        None => base,
    }
}

/// What popping the last Pauli does to a stack (see [PauliVec::pop]).
pub open spec fn stack_popped(old: PauliVec, new: PauliVec) -> bool {
    if old.xs().len() == 0 {
        new.xs() == old.xs() && new.zs() == old.zs()
    } else {
        &&& new.xs() == old.xs().drop_last()
        &&& new.zs() == (if old.zs().len() > 0 {
            old.zs().drop_last()
        } else {
            old.zs()
        })
    }
}

/// Whether every stack holds at least one X and one Z component.
pub open spec fn all_nonempty(m: Map<usize, PauliVec>) -> bool {
    forall|q: usize| #[trigger] m.contains_key(q) ==> m[q].xs().len() > 0 && m[q].zs().len() > 0
}

/// The encoded last Pauli of each stack.
pub open spec fn top_codes(m: Map<usize, PauliVec>) -> Map<usize, u8> {
    m.map_values(|p: PauliVec| encode(p.xs().last(), p.zs().last()))
}

/// Whether `new` equals `old` but for the stacks of `a` and `b`.
pub open spec fn others_kept(old: Map<usize, PauliVec>, new: Map<usize, PauliVec>, a: usize, b: usize) -> bool {
    &&& new.dom() == old.dom()
    &&& forall|q: usize| q != a && q != b && #[trigger] old.contains_key(q) ==> new[q] == old[q]
}

/// Whether `new` is `old` after the Hadamard gate on `qubit`: its X and Z components
/// are exchanged in every frame.
pub open spec fn h_applied(old: Map<usize, PauliVec>, new: Map<usize, PauliVec>, qubit: usize) -> bool {
    &&& others_kept(old, new, qubit, qubit)
    &&& new[qubit].xs() == old[qubit].zs()
    &&& new[qubit].zs() == old[qubit].xs()
}

/// Whether `new` is `old` after the phase gate S on `qubit`: in every frame its X
/// component is added onto its Z component.
pub open spec fn s_applied(old: Map<usize, PauliVec>, new: Map<usize, PauliVec>, qubit: usize) -> bool {
    &&& others_kept(old, new, qubit, qubit)
    &&& new[qubit].xs() == old[qubit].xs()
    &&& new[qubit].zs() == xor_seq(old[qubit].zs(), old[qubit].xs())
}

/// Whether `new` is `old` after the Control X gate: in every frame the X component of
/// the control is added onto the target, the Z component of the target onto the control.
pub open spec fn cx_applied(old: Map<usize, PauliVec>, new: Map<usize, PauliVec>, control: usize, target: usize) -> bool {
    &&& others_kept(old, new, control, target)
    &&& new[target].xs() == xor_seq(old[target].xs(), old[control].xs())
    &&& new[target].zs() == old[target].zs()
    &&& new[control].xs() == old[control].xs()
    &&& new[control].zs() == xor_seq(old[control].zs(), old[target].zs())
}

/// Whether `new` is `old` after the Control Z gate: in every frame the X component of
/// each qubit is added onto the Z component of the other.
pub open spec fn cz_applied(old: Map<usize, PauliVec>, new: Map<usize, PauliVec>, a: usize, b: usize) -> bool {
    &&& others_kept(old, new, a, b)
    &&& new[a].xs() == old[a].xs()
    &&& new[a].zs() == xor_seq(old[a].zs(), old[b].xs())
    &&& new[b].xs() == old[b].xs()
    &&& new[b].zs() == xor_seq(old[b].zs(), old[a].xs())
}

/// Whether the two storages hold stacks of the same qubits with the same components.
pub open spec fn same_components(a: Map<usize, PauliVec>, b: Map<usize, PauliVec>) -> bool {
    &&& a.dom() == b.dom()
    &&& forall|q: usize| #[trigger] a.contains_key(q) ==> a[q].xs() == b[q].xs() && a[q].zs() == b[q].zs()
}

/// The Hadamard gate is its own inverse: applied twice, it leaves the frames as they
/// were.
pub proof fn lemma_h_twice(m0: Map<usize, PauliVec>, m1: Map<usize, PauliVec>, m2: Map<usize, PauliVec>, qubit: usize)
    requires
        m0.contains_key(qubit),
        h_applied(m0, m1, qubit),
        h_applied(m1, m2, qubit),
    ensures
        same_components(m0, m2),
{
}

/// The phase gate S applied twice (the Pauli Z, up to a phase) leaves the frames as they
/// were.
pub proof fn lemma_s_twice(m0: Map<usize, PauliVec>, m1: Map<usize, PauliVec>, m2: Map<usize, PauliVec>, qubit: usize)
    requires
        m0.contains_key(qubit),
        m0[qubit].xs().len() == m0[qubit].zs().len(),
        s_applied(m0, m1, qubit),
        s_applied(m1, m2, qubit),
    ensures
        same_components(m0, m2),
{
    crate::boolean_vector::lemma_xor_twice(m0[qubit].zs(), m0[qubit].xs());
}

/// The Control X gate is its own inverse.
pub proof fn lemma_cx_twice(
    m0: Map<usize, PauliVec>,
    m1: Map<usize, PauliVec>,
    m2: Map<usize, PauliVec>,
    control: usize,
    target: usize,
)
    requires
        m0.contains_key(control),
        m0.contains_key(target),
        control != target,
        m0[control].xs().len() == m0[target].xs().len(),
        m0[control].zs().len() == m0[target].zs().len(),
        cx_applied(m0, m1, control, target),
        cx_applied(m1, m2, control, target),
    ensures
        same_components(m0, m2),
{
    crate::boolean_vector::lemma_xor_twice(m0[target].xs(), m0[control].xs());
    crate::boolean_vector::lemma_xor_twice(m0[control].zs(), m0[target].zs());
}

/// The Control Z gate is its own inverse.
pub proof fn lemma_cz_twice(m0: Map<usize, PauliVec>, m1: Map<usize, PauliVec>, m2: Map<usize, PauliVec>, a: usize, b: usize)
    requires
        m0.contains_key(a),
        m0.contains_key(b),
        a != b,
        m0[a].zs().len() == m0[b].xs().len(),
        m0[b].zs().len() == m0[a].xs().len(),
        cz_applied(m0, m1, a, b),
        cz_applied(m1, m2, a, b),
    ensures
        same_components(m0, m2),
{
    crate::boolean_vector::lemma_xor_twice(m0[a].zs(), m0[b].xs());
    crate::boolean_vector::lemma_xor_twice(m0[b].zs(), m0[a].xs());
}

/// Popping the frame that was just pushed gives back the pushed Paulis, (X if `x`)(Z if
/// `z`) on `qubit` and identities elsewhere, and leaves the stacks as they were.
pub proof fn lemma_pop_undoes_push(
    m0: Map<usize, PauliVec>,
    m1: Map<usize, PauliVec>,
    m2: Map<usize, PauliVec>,
    qubit: Option<usize>,
    x: bool,
    z: bool,
)
    requires
        pushed_frame(m0, m1, qubit, x, z),
        m2.dom() == m1.dom(),
        forall|q: usize| #[trigger] m1.contains_key(q) ==> stack_popped(m1[q], m2[q]),
    ensures
        all_nonempty(m1),
        forall|q: usize| #[trigger] m1.contains_key(q) ==> top_codes(m1)[q] == encode(
            qubit == Some(q) && x,
            qubit == Some(q) && z,
        ),
        same_components(m0, m2),
{
    assert forall|q: usize| #[trigger] m0.contains_key(q) implies m0[q].xs() == m2[q].xs() && m0[q].zs() == m2[q].zs() by {
        assert(frame_pushed_at(m0, m1, q, qubit, x, z));
        assert(stack_popped(m1[q], m2[q]));
        assert(m1[q].xs().drop_last() =~= m0[q].xs());
        assert(m1[q].zs().drop_last() =~= m0[q].zs());
    }
}

/// A storage of Pauli stacks with the number of frames that are tracked. The type
/// tracks the frames through a Clifford circuit: the gates conjugate the Paulis of
/// every frame.
#[derive(Clone, Debug)]
pub struct Frames<Storage> {
    storage: Storage,
    frames_num: usize,
}

impl<Storage> Frames<Storage> {
    /// The storage of the stacks.
    pub closed spec fn store(&self) -> Storage {
        self.storage
    }

    /// The number of frames.
    pub closed spec fn num(&self) -> nat {
        self.frames_num as nat
    }

    /// The storage of the stacks.
    pub fn storage(&self) -> (r: &Storage)
        ensures
            *r == self.store(),
    {
        &self.storage
    }

    /// The number of frames.
    pub fn frames_num(&self) -> (r: usize)
        ensures
            r == self.num(),
    {
        self.frames_num
    }

    /// The storage of the stacks.
    pub fn into_storage(self) -> (r: Storage)
        ensures
            r == self.store(),
    {
        self.storage
    }

    /// Apply Pauli X, which does not change the frames.
    pub fn x(&self, _bit: usize) {
    }

    /// Apply Pauli Z, which does not change the frames.
    pub fn z(&self, _bit: usize) {
    }

    /// Apply Pauli Y, which does not change the frames.
    pub fn y(&self, _bit: usize) {
    }
}

impl<Storage: Default> Default for Frames<Storage> {
    /// No frames, in the default storage.
    fn default() -> (r: Self)
        ensures
            r.num() == 0,
    {
        Self { storage: Storage::default(), frames_num: 0 }
    }
}

impl<Storage: PauliStorage> Frames<Storage> {
    /// The stacks, by qubit.
    pub open spec fn stacks(&self) -> Map<usize, PauliVec> {
        self.store().stacks()
    }

    /// Whether every stack holds exactly one X and one Z component per frame.
    pub open spec fn consistent(&self) -> bool {
        forall|q: usize|
            #[trigger] self.stacks().contains_key(q) ==> self.stacks()[q].xs().len() == self.num()
                && self.stacks()[q].zs().len() == self.num()
    }

    /// No frames, on the qubits `0..num_qubits`.
    pub fn init(num_qubits: usize) -> (r: Self)
        ensures
            r.num() == 0,
            r.stacks().dom() == Set::new(|q: usize| q < num_qubits),
            r.consistent(),
    {
        Self { storage: Storage::init(num_qubits), frames_num: 0 }
    }

    // push one frame onto every stack: (X if `x`)(Z if `z`) onto the stack of `qubit`,
    // the identity onto the others
    fn push_all(&mut self, qubit: Option<usize>, x: bool, z: bool)
        requires
            room_for_frame(old(self).stacks()),
        ensures
            final(self).num() == old(self).num(),
            pushed_frame(old(self).stacks(), final(self).stacks(), qubit, x, z),
    {
        let keys = self.qubits();
        let ghost old_stacks = self.stacks();
        let ghost num = self.num();
        let mut k: usize = 0;
        while k < keys.len()
            invariant
                k <= keys@.len(),
                keys@.no_duplicates(),
                forall|q: usize| #[trigger] keys@.contains(q) <==> old_stacks.contains_key(q),
                room_for_frame(old_stacks),
                self.num() == num,
                self.stacks().dom() == old_stacks.dom(),
                forall|j: int| 0 <= j < k ==> #[trigger] frame_pushed_at(old_stacks, self.stacks(), keys@[j], qubit, x, z),
                forall|j: int| k <= j < keys@.len() ==> self.stacks()[#[trigger] keys@[j]] == old_stacks[keys@[j]],
            decreases keys@.len() - k,
        {
            let q = keys[k];
            proof {
                assert(keys@.contains(q));
            }
            let ghost before = self.stacks();
            let mut p = match self.storage.remove_pauli(q) {
                Some(p) => p,
                None => {
                    proof {
                        assert(false);
                    }
                    return;
                },
            };
            let is_target = match qubit {
                Some(t) => t == q,
                None => false,
            };
            p.push(is_target && x, is_target && z);
            let ghost mid = self.stacks();
            let _ = self.storage.insert_pauli(q, p);
            proof {
                assert(self.stacks() == mid.insert(q, p));
                assert forall|j: int| 0 <= j < k + 1 implies #[trigger] frame_pushed_at(
                    old_stacks,
                    self.stacks(),
                    keys@[j],
                    qubit,
                    x,
                    z,
                ) by {
                    if j < k {
                        assert(keys@[j] != q);
                        assert(frame_pushed_at(old_stacks, before, keys@[j], qubit, x, z));
                        assert(mid.insert(q, p)[keys@[j]] == before[keys@[j]]);
                    }
                }
                assert forall|j: int| k + 1 <= j < keys@.len() implies self.stacks()[#[trigger] keys@[j]]
                    == old_stacks[keys@[j]] by {
                    assert(keys@[j] != q);
                }
                assert(self.stacks().dom() =~= old_stacks.dom());
            }
            k += 1;
        }
        proof {
            assert forall|q: usize| #[trigger] self.stacks().contains_key(q) implies frame_pushed_at(
                old_stacks,
                self.stacks(),
                q,
                qubit,
                x,
                z,
            ) by {
                assert(keys@.contains(q));
                let j = choose|j: int| 0 <= j < keys@.len() && keys@[j] == q;
                assert(frame_pushed_at(old_stacks, self.stacks(), keys@[j], qubit, x, z));
            }
        }
    }

    /// Insert a new qubit with an identity in every frame; [Some] of the qubit if it was
    /// already present, in which case the storage decides what happens to its stack.
    pub fn new_qubit(&mut self, qubit: usize) -> (r: Option<usize>)
        ensures
            final(self).num() == old(self).num(),
            old(self).stacks().contains_key(qubit) <==> r == Some(qubit),
            !old(self).stacks().contains_key(qubit) && old(self).consistent() ==> final(self).consistent(),
            !old(self).stacks().contains_key(qubit) ==> r is None && final(self).stacks().dom()
                == old(self).stacks().dom().insert(qubit) && final(self).stacks()[qubit].xs()
                == crate::boolean_vector::falses(old(self).num()) && final(self).stacks()[qubit].zs()
                == crate::boolean_vector::falses(old(self).num()) && forall|q: usize|
                q != qubit && #[trigger] old(self).stacks().contains_key(q) ==> final(self).stacks()[q]
                    == old(self).stacks()[q],
    {
        let zeros = PauliVec::zeros(self.frames_num);
        match self.storage.insert_pauli(qubit, zeros) {
            Some(_) => Some(qubit),
            None => None,
        }
    }

    /// Track a new frame: the Pauli on the qubit, identities on the other qubits.
    pub fn track_pauli(&mut self, qubit: usize, pauli: Pauli)
        requires
            old(self).num() < usize::MAX,
            room_for_frame(old(self).stacks()),
        ensures
            final(self).num() == old(self).num() + 1,
            old(self).consistent() ==> final(self).consistent(),
            pushed_frame(
                old(self).stacks(),
                final(self).stacks(),
                Some(qubit),
                x_of(pauli.code()),
                z_of(pauli.code()),
            ),
    {
        let x = pauli.x();
        let z = pauli.z();
        self.push_all(Some(qubit), x, z);
        self.frames_num = self.frames_num + 1;
    }

    /// Apply the Hadamard gate on the qubit, which must be present: in every frame its X
    /// and Z components are exchanged.
    pub fn h(&mut self, qubit: usize)
        requires
            old(self).stacks().contains_key(qubit),
        ensures
            final(self).num() == old(self).num(),
            h_applied(old(self).stacks(), final(self).stacks(), qubit),
            old(self).consistent() ==> final(self).consistent(),
    {
        let mut p = match self.storage.remove_pauli(qubit) {
            Some(p) => p,
            None => {
                proof {
                    assert(false);
                }
                return;
            },
        };
        p.h();
        let _ = self.storage.insert_pauli(qubit, p);
        proof {
            assert(final(self).stacks().dom() =~= old(self).stacks().dom());
        }
    }

    /// Apply the phase gate S on the qubit, which must be present and hold as many X as Z
    /// components: in every frame the X component is added onto the Z component.
    pub fn s(&mut self, qubit: usize)
        requires
            old(self).stacks().contains_key(qubit),
            old(self).stacks()[qubit].xs().len() == old(self).stacks()[qubit].zs().len(),
        ensures
            final(self).num() == old(self).num(),
            s_applied(old(self).stacks(), final(self).stacks(), qubit),
            old(self).consistent() ==> final(self).consistent(),
    {
        let mut p = match self.storage.remove_pauli(qubit) {
            Some(p) => p,
            None => {
                proof {
                    assert(false);
                }
                return;
            },
        };
        p.s();
        let _ = self.storage.insert_pauli(qubit, p);
        proof {
            assert(final(self).stacks().dom() =~= old(self).stacks().dom());
        }
    }

    /// Apply the Control X (Control Not) gate; both qubits must be present and different,
    /// with stacks of the same lengths: in every frame the X component of the control is
    /// added onto the target, and the Z component of the target onto the control.
    pub fn cx(&mut self, control: usize, target: usize)
        requires
            old(self).stacks().contains_key(control),
            old(self).stacks().contains_key(target),
            control != target,
            old(self).stacks()[control].xs().len() == old(self).stacks()[target].xs().len(),
            old(self).stacks()[control].zs().len() == old(self).stacks()[target].zs().len(),
        ensures
            final(self).num() == old(self).num(),
            cx_applied(old(self).stacks(), final(self).stacks(), control, target),
            old(self).consistent() ==> final(self).consistent(),
    {
        let mut c = match self.storage.remove_pauli(control) {
            Some(p) => p,
            None => {
                proof {
                    assert(false);
                }
                return;
            },
        };
        let mut t = match self.storage.remove_pauli(target) {
            Some(p) => p,
            None => {
                proof {
                    assert(false);
                }
                return;
            },
        };
        let _ = bv_xor(&mut t.left, &c.left);
        let _ = bv_xor(&mut c.right, &t.right);
        let _ = self.storage.insert_pauli(control, c);
        let _ = self.storage.insert_pauli(target, t);
        proof {
            assert(final(self).stacks().dom() =~= old(self).stacks().dom());
        }
    }

    /// Apply the Control Z gate; both qubits must be present and different, with the Z
    /// stack of each as long as the X stack of the other: in every frame the X component
    /// of each qubit is added onto the Z component of the other.
    pub fn cz(&mut self, qubit_a: usize, qubit_b: usize)
        requires
            old(self).stacks().contains_key(qubit_a),
            old(self).stacks().contains_key(qubit_b),
            qubit_a != qubit_b,
            old(self).stacks()[qubit_a].zs().len() == old(self).stacks()[qubit_b].xs().len(),
            old(self).stacks()[qubit_b].zs().len() == old(self).stacks()[qubit_a].xs().len(),
        ensures
            final(self).num() == old(self).num(),
            cz_applied(old(self).stacks(), final(self).stacks(), qubit_a, qubit_b),
            old(self).consistent() ==> final(self).consistent(),
    {
        let mut a = match self.storage.remove_pauli(qubit_a) {
            Some(p) => p,
            None => {
                proof {
                    assert(false);
                }
                return;
            },
        };
        let mut b = match self.storage.remove_pauli(qubit_b) {
            Some(p) => p,
            None => {
                proof {
                    assert(false);
                }
                return;
            },
        };
        let _ = bv_xor(&mut a.right, &b.left);
        let _ = bv_xor(&mut b.right, &a.left);
        let _ = self.storage.insert_pauli(qubit_a, a);
        let _ = self.storage.insert_pauli(qubit_b, b);
        proof {
            assert(final(self).stacks().dom() =~= old(self).stacks().dom());
        }
    }

    /// Perform an unspecified measurement: the qubit is no longer tracked. Its stack is
    /// returned, [None] if it is not present.
    pub fn measure(&mut self, qubit: usize) -> (r: Option<PauliVec>)
        ensures
            final(self).num() == old(self).num(),
            final(self).stacks() == old(self).stacks().remove(qubit),
            old(self).consistent() ==> final(self).consistent(),
            r is Some <==> old(self).stacks().contains_key(qubit),
            r matches Some(p) ==> p == old(self).stacks()[qubit],
    {
        let r = self.storage.remove_pauli(qubit);
        proof {
            assert forall|q: usize| #[trigger] self.stacks().contains_key(q) implies old(self).stacks().contains_key(q)
                && self.stacks()[q] == old(self).stacks()[q] by {
            }
        }
        r
    }

    /// Measure the qubit, which must be present, and insert its stack into `storage`.
    pub fn measure_and_store<S: PauliStorage>(&mut self, qubit: usize, storage: &mut S)
        requires
            old(self).stacks().contains_key(qubit),
        ensures
            final(self).num() == old(self).num(),
            final(self).stacks() == old(self).stacks().remove(qubit),
            !old(storage).stacks().contains_key(qubit) ==> final(storage).stacks() == old(
                storage,
            ).stacks().insert(qubit, old(self).stacks()[qubit]),
    {
        match self.measure(qubit) {
            Some(p) => {
                let _ = storage.insert_pauli(qubit, p);
            },
            None => {
                proof {
                    assert(false);
                }
            },
        }
    }

    /// Measure all qubits and insert their stacks into `storage`.
    pub fn measure_and_store_all<S: PauliStorage>(self, storage: &mut S)
        ensures
            self.stacks().dom().disjoint(old(storage).stacks().dom()) ==> final(storage).stacks()
                == old(storage).stacks().union_prefer_right(self.stacks()),
    {
        let ghost stacks = self.stacks();
        let mut entries = self.storage.into_entries();
        let ghost all = entries@;
        let ghost start = storage.stacks();
        let ghost disjoint = stacks.dom().disjoint(start.dom());
        while entries.len() > 0
            invariant
                entries@ == all.take(entries@.len() as int),
                entries@.len() <= all.len(),
                super::represents(all, stacks),
                start == old(storage).stacks(),
                disjoint == stacks.dom().disjoint(start.dom()),
                disjoint ==> storage.stacks() == start.union_prefer_right(
                    Map::new(
                        |q: usize| exists|j: int| entries@.len() <= j < all.len() && all[j].0 == q,
                        |q: usize| stacks[q],
                    ),
                ),
            decreases entries@.len(),
        {
            let ghost n = entries@.len();
            let (q, p) = match entries.pop() {
                Some(e) => e,
                None => {
                    proof {
                        assert(false);
                    }
                    return;
                },
            };
            proof {
                assert(all[n - 1] == (q, p));
                assert(entries@ =~= all.take(n - 1));
            }
            let ghost before = storage.stacks();
            let _ = storage.insert_pauli(q, p);
            proof {
                if disjoint {
                    let done = Map::new(
                        |x: usize| exists|j: int| n <= j < all.len() && all[j].0 == x,
                        |x: usize| stacks[x],
                    );
                    let done2 = Map::new(
                        |x: usize| exists|j: int| n - 1 <= j < all.len() && all[j].0 == x,
                        |x: usize| stacks[x],
                    );
                    assert(stacks.contains_key(q) && stacks[q] == p);
                    assert(!start.contains_key(q));
                    assert(!done.contains_key(q)) by {
                        if done.contains_key(q) {
                            let j = choose|j: int| n <= j < all.len() && all[j].0 == q;
                            assert(all[j].0 != all[n - 1].0);
                        }
                    }
                    assert(!before.contains_key(q));
                    assert(done2 =~= done.insert(q, p)) by {
                        assert forall|x: usize| done2.contains_key(x) <==> done.insert(q, p).contains_key(x) by {
                            if done2.contains_key(x) && x != q {
                                let j = choose|j: int| n - 1 <= j < all.len() && all[j].0 == x;
                                assert(j != n - 1);
                            }
                            if x == q {
                                assert(all[n - 1].0 == q);
                            }
                        }
                    }
                    assert(storage.stacks() =~= start.union_prefer_right(done2));
                }
            }
        }
        proof {
            if disjoint {
                let done = Map::new(
                    |x: usize| exists|j: int| 0 <= j < all.len() && all[j].0 == x,
                    |x: usize| stacks[x],
                );
                assert(done =~= stacks) by {
                    assert forall|x: usize| done.contains_key(x) <==> stacks.contains_key(x) by {
                        if stacks.contains_key(x) {
                            super::lemma_key_listed(all, stacks, |p: PauliVec| p, x);
                        }
                    }
                }
            }
        }
    }

    /// Track a new frame holding the Paulis of the string, identities on the other
    /// qubits; a qubit that appears more than once gets the Pauli of its last pair, and
    /// pairs of qubits that are not present are skipped. The stacks of the qubits of the
    /// string must hold at least one component per frame.
    pub fn track_pauli_string(&mut self, string: PauliString)
        requires
            old(self).num() < usize::MAX,
            room_for_frame(old(self).stacks()),
            forall|j: int|
                0 <= j < string@.len() && #[trigger] old(self).stacks().contains_key(string@[j].0)
                    ==> old(self).stacks()[string@[j].0].xs().len() >= old(self).num()
                    && old(self).stacks()[string@[j].0].zs().len() >= old(self).num(),
        ensures
            final(self).num() == old(self).num() + 1,
            final(self).stacks().dom() == old(self).stacks().dom(),
            old(self).consistent() ==> final(self).consistent(),
            forall|q: usize| #[trigger]
                final(self).stacks().contains_key(q) ==> final(self).stacks()[q].xs() == written(
                    old(self).stacks()[q].xs().push(false),
                    old(self).num() as int,
                    last_pauli(string@, q),
                    |c: u8| x_of(c),
                ) && final(self).stacks()[q].zs() == written(
                    old(self).stacks()[q].zs().push(false),
                    old(self).num() as int,
                    last_pauli(string@, q),
                    |c: u8| z_of(c),
                ),
    {
        self.push_all(None, false, false);
        let ghost mid = self.stacks();
        let ghost num = self.num();
        let ghost fx = |c: u8| x_of(c);
        let ghost fz = |c: u8| z_of(c);
        self.frames_num = self.frames_num + 1;
        let pos = self.frames_num - 1;
        let mut j: usize = 0;
        while j < string.len()
            invariant
                j <= string@.len(),
                pos == num,
                self.num() == num + 1,
                fx == |c: u8| x_of(c),
                fz == |c: u8| z_of(c),
                forall|k: int|
                    0 <= k < string@.len() && #[trigger] mid.contains_key(string@[k].0) ==> mid[string@[k].0].xs().len() > num
                        && mid[string@[k].0].zs().len() > num,
                self.stacks().dom() == mid.dom(),
                forall|q: usize| #[trigger]
                    self.stacks().contains_key(q) ==> self.stacks()[q].xs() == written(
                        mid[q].xs(),
                        num as int,
                        last_pauli(string@.take(j as int), q),
                        fx,
                    ) && self.stacks()[q].zs() == written(
                        mid[q].zs(),
                        num as int,
                        last_pauli(string@.take(j as int), q),
                        fz,
                    ),
            decreases string@.len() - j,
        {
            let (i, pauli) = string[j];
            let ghost before = self.stacks();
            proof {
                assert(string@.take(j + 1).drop_last() =~= string@.take(j as int));
                assert(string@.take(j + 1).last() == (i, pauli));
            }
            match self.storage.remove_pauli(i) {
                Some(mut p) => {
                    proof {
                        assert(mid.contains_key(string@[j as int].0));
                    }
                    bv_set(&mut p.left, pos, pauli.x());
                    bv_set(&mut p.right, pos, pauli.z());
                    let _ = self.storage.insert_pauli(i, p);
                    proof {
                        assert(self.stacks().dom() =~= mid.dom());
                        assert forall|q: usize| #[trigger] self.stacks().contains_key(q) implies self.stacks()[q].xs()
                            == written(mid[q].xs(), num as int, last_pauli(string@.take(j + 1), q), fx)
                            && self.stacks()[q].zs() == written(
                            mid[q].zs(),
                            num as int,
                            last_pauli(string@.take(j + 1), q),
                            fz,
                        ) by {
                            if q == i {
                                assert(before.contains_key(q));
                                assert(self.stacks()[q].xs() =~= mid[q].xs().update(num as int, x_of(pauli.code())));
                                assert(self.stacks()[q].zs() =~= mid[q].zs().update(num as int, z_of(pauli.code())));
                            } else {
                                assert(before.contains_key(q));
                            }
                        }
                    }
                },
                None => {
                    proof {
                        assert forall|q: usize| #[trigger] self.stacks().contains_key(q) implies self.stacks()[q].xs()
                            == written(mid[q].xs(), num as int, last_pauli(string@.take(j + 1), q), fx)
                            && self.stacks()[q].zs() == written(
                            mid[q].zs(),
                            num as int,
                            last_pauli(string@.take(j + 1), q),
                            fz,
                        ) by {
                            assert(before.contains_key(q));
                            assert(q != i);
                        }
                    }
                },
            }
            j += 1;
        }
        proof {
            assert(string@.take(string@.len() as int) =~= string@);
        }
    }

    /// Remove the last frame and return it, its Pauli for each qubit in no particular
    /// order. [Some] exactly if every stack holds a last X and Z component; otherwise
    /// the stacks that were reached first are popped all the same (see
    /// [PauliVec::pop]), and the number of frames stays.
    pub fn pop_frame(&mut self) -> (r: Option<PauliString>)
        requires
            all_nonempty(old(self).stacks()) ==> old(self).num() > 0,
        ensures
            final(self).stacks().dom() == old(self).stacks().dom(),
            r is Some <==> all_nonempty(old(self).stacks()),
            r is Some && old(self).consistent() ==> final(self).consistent(),
            r matches Some(frame) ==> represents_by(frame@, top_codes(old(self).stacks()), |p: Pauli| p.code())
                && final(self).num() == old(self).num() - 1 && forall|q: usize| #[trigger]
                old(self).stacks().contains_key(q) ==> stack_popped(old(self).stacks()[q], final(self).stacks()[q]),
            r is None ==> final(self).num() == old(self).num() && forall|q: usize| #[trigger]
                old(self).stacks().contains_key(q) ==> (stack_popped(old(self).stacks()[q], final(self).stacks()[q])
                    || final(self).stacks()[q] == old(self).stacks()[q]),
    {
        let keys = self.qubits();
        let ghost old_stacks = self.stacks();
        let ghost num = self.num();
        let mut ret: Vec<(usize, Pauli)> = Vec::new();
        let mut k: usize = 0;
        while k < keys.len()
            invariant
                k <= keys@.len(),
                keys@.no_duplicates(),
                keys@.len() == old_stacks.dom().len(),
                old_stacks == old(self).stacks(),
                num == old(self).num(),
                old_stacks.dom().finite(),
                forall|q: usize| #[trigger] keys@.contains(q) <==> old_stacks.contains_key(q),
                all_nonempty(old_stacks) ==> num > 0,
                self.num() == num,
                self.stacks().dom() == old_stacks.dom(),
                ret@.len() == k,
                forall|j: int| 0 <= j < k ==> (#[trigger] ret@[j]).0 == keys@[j] && ret@[j].1.code()
                    == encode(old_stacks[keys@[j]].xs().last(), old_stacks[keys@[j]].zs().last()),
                forall|j: int| 0 <= j < k ==> old_stacks[#[trigger] keys@[j]].xs().len() > 0
                    && old_stacks[keys@[j]].zs().len() > 0 && stack_popped(old_stacks[keys@[j]], self.stacks()[keys@[j]]),
                forall|j: int| k <= j < keys@.len() ==> self.stacks()[#[trigger] keys@[j]] == old_stacks[keys@[j]],
            decreases keys@.len() - k,
        {
            let q = keys[k];
            proof {
                assert(keys@.contains(q));
            }
            let ghost before = self.stacks();
            let mut p = match self.storage.remove_pauli(q) {
                Some(p) => p,
                None => {
                    proof {
                        assert(false);
                    }
                    return None;
                },
            };
            let ghost p0 = p;
            let popped = p.pop();
            let ghost mid = self.stacks();
            let _ = self.storage.insert_pauli(q, p);
            proof {
                assert(self.stacks() == mid.insert(q, p));
                assert(self.stacks().dom() =~= old_stacks.dom());
                assert forall|j: int| 0 <= j < k implies old_stacks[#[trigger] keys@[j]].xs().len() > 0
                    && old_stacks[keys@[j]].zs().len() > 0 && stack_popped(old_stacks[keys@[j]], self.stacks()[keys@[j]]) by {
                    assert(keys@[j] != q);
                    assert(before[keys@[j]] == self.stacks()[keys@[j]]);
                }
                assert forall|j: int| k < j < keys@.len() implies self.stacks()[#[trigger] keys@[j]]
                    == old_stacks[keys@[j]] by {
                    assert(keys@[j] != q);
                    assert(before[keys@[j]] == self.stacks()[keys@[j]]);
                }
            }
            match popped {
                Some(pauli) => {
                    ret.push((q, pauli));
                },
                None => {
                    proof {
                        assert(!all_nonempty(old_stacks)) by {
                            assert(old_stacks.contains_key(q));
                        }
                        assert forall|x: usize| #[trigger] old_stacks.contains_key(x) implies (stack_popped(
                            old_stacks[x],
                            self.stacks()[x],
                        ) || self.stacks()[x] == old_stacks[x]) by {
                            assert(keys@.contains(x));
                            let j = choose|j: int| 0 <= j < keys@.len() && keys@[j] == x;
                            if j < k {
                            } else if j > k {
                            } else {
                                assert(x == q);
                            }
                        }
                    }
                    return None;
                },
            }
            k += 1;
        }
        proof {
            assert(all_nonempty(old_stacks)) by {
                assert forall|x: usize| #[trigger] old_stacks.contains_key(x) implies old_stacks[x].xs().len() > 0
                    && old_stacks[x].zs().len() > 0 by {
                    assert(keys@.contains(x));
                    let j = choose|j: int| 0 <= j < keys@.len() && keys@[j] == x;
                    assert(old_stacks[keys@[j]].xs().len() > 0);
                }
            }
            assert forall|x: usize| #[trigger] old_stacks.contains_key(x) implies stack_popped(
                old_stacks[x],
                self.stacks()[x],
            ) by {
                assert(keys@.contains(x));
                let j = choose|j: int| 0 <= j < keys@.len() && keys@[j] == x;
                assert(stack_popped(old_stacks[keys@[j]], self.stacks()[keys@[j]]));
            }
            let codes = top_codes(old_stacks);
            assert(codes.dom() == old_stacks.dom());
            assert forall|i: int, j: int| 0 <= i < j < ret@.len() implies ret@[i].0 != ret@[j].0 by {
                assert(ret@[i].0 == keys@[i] && ret@[j].0 == keys@[j]);
            }
            assert forall|i: int| 0 <= i < ret@.len() implies codes.contains_key(#[trigger] ret@[i].0)
                && codes[ret@[i].0] == (|p: Pauli| p.code())(ret@[i].1) by {
                assert(ret@[i].0 == keys@[i]);
                assert(keys@.contains(keys@[i]));
            }
        }
        self.frames_num = self.frames_num - 1;
        Some(ret)
    }

    /// Reset every Pauli of every frame to the identity and the number of frames to
    /// zero; the stacks keep their lengths.
    pub fn clear_all(&mut self)
        ensures
            final(self).num() == 0,
            final(self).stacks().dom() == old(self).stacks().dom(),
            forall|q: usize| #[trigger]
                final(self).stacks().contains_key(q) ==> final(self).stacks()[q].xs() == falses(
                    old(self).stacks()[q].xs().len(),
                ) && final(self).stacks()[q].zs() == falses(old(self).stacks()[q].zs().len()),
    {
        let keys = self.qubits();
        let ghost old_stacks = self.stacks();
        let mut k: usize = 0;
        while k < keys.len()
            invariant
                k <= keys@.len(),
                keys@.no_duplicates(),
                forall|q: usize| #[trigger] keys@.contains(q) <==> old_stacks.contains_key(q),
                self.stacks().dom() == old_stacks.dom(),
                forall|j: int| 0 <= j < k ==> self.stacks()[#[trigger] keys@[j]].xs() == falses(
                    old_stacks[keys@[j]].xs().len(),
                ) && self.stacks()[keys@[j]].zs() == falses(old_stacks[keys@[j]].zs().len()),
                forall|j: int| k <= j < keys@.len() ==> self.stacks()[#[trigger] keys@[j]] == old_stacks[keys@[j]],
            decreases keys@.len() - k,
        {
            let q = keys[k];
            proof {
                assert(keys@.contains(q));
            }
            let ghost before = self.stacks();
            let mut p = match self.storage.remove_pauli(q) {
                Some(p) => p,
                None => {
                    proof {
                        assert(false);
                    }
                    return;
                },
            };
            p.clear();
            let ghost mid = self.stacks();
            let _ = self.storage.insert_pauli(q, p);
            proof {
                assert(self.stacks() == mid.insert(q, p));
                assert(self.stacks().dom() =~= old_stacks.dom());
                assert forall|j: int| 0 <= j < k + 1 implies self.stacks()[#[trigger] keys@[j]].xs() == falses(
                    old_stacks[keys@[j]].xs().len(),
                ) && self.stacks()[keys@[j]].zs() == falses(old_stacks[keys@[j]].zs().len()) by {
                    if j < k {
                        assert(keys@[j] != q);
                        assert(before[keys@[j]] == self.stacks()[keys@[j]]);
                    }
                }
                assert forall|j: int| k + 1 <= j < keys@.len() implies self.stacks()[#[trigger] keys@[j]]
                    == old_stacks[keys@[j]] by {
                    assert(keys@[j] != q);
                    assert(before[keys@[j]] == self.stacks()[keys@[j]]);
                }
            }
            k += 1;
        }
        self.frames_num = 0;
        proof {
            assert forall|q: usize| #[trigger] self.stacks().contains_key(q) implies self.stacks()[q].xs() == falses(
                old_stacks[q].xs().len(),
            ) && self.stacks()[q].zs() == falses(old_stacks[q].zs().len()) by {
                assert(keys@.contains(q));
                let j = choose|j: int| 0 <= j < keys@.len() && keys@[j] == q;
                assert(self.stacks()[keys@[j]].xs() == falses(old_stacks[keys@[j]].xs().len()));
            }
        }
    }

    // the qubits, each once
    fn qubits(&self) -> (r: Vec<usize>)
        ensures
            r@.no_duplicates(),
            forall|q: usize| #[trigger] r@.contains(q) <==> self.stacks().contains_key(q),
            self.stacks().dom().finite(),
            r@.len() == self.stacks().dom().len(),
    {
        let entries = self.storage.entries();
        let mut keys: Vec<usize> = Vec::new();
        let mut i: usize = 0;
        while i < entries.len()
            invariant
                i <= entries@.len(),
                super::represents_refs(entries@, self.stacks()),
                keys@.len() == i,
                forall|j: int| 0 <= j < i ==> #[trigger] keys@[j] == entries@[j].0,
            decreases entries@.len() - i,
        {
            keys.push(entries[i].0);
            i += 1;
        }
        proof {
            assert forall|a: int, b: int| 0 <= a < b < keys@.len() implies keys@[a] != keys@[b] by {
                assert(keys@[a] == entries@[a].0 && keys@[b] == entries@[b].0);
            }
            assert forall|q: usize| #[trigger] keys@.contains(q) <==> self.stacks().contains_key(q) by {
                if keys@.contains(q) {
                    let j = choose|j: int| 0 <= j < keys@.len() && keys@[j] == q;
                    assert(keys@[j] == entries@[j].0);
                }
                if self.stacks().contains_key(q) {
                    super::lemma_key_listed(entries@, self.stacks(), |p: &PauliVec| *p, q);
                    let j = choose|j: int| 0 <= j < entries@.len() && entries@[j].0 == q;
                    assert(keys@[j] == q);
                }
            }
        }
        keys
    }
}

} // verus!
