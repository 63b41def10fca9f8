//! The ARC4 stream cipher, as a keystream generator.
use vstd::prelude::*;

verus! {

/// The abstract state of the cipher: its permutation table and two cursors.
pub struct Arc4State {
    pub table: Seq<u8>,
    pub i: u8,
    pub j: u8,
}

/// `t` with the entries at `a` and `b` exchanged.
pub open spec fn swapped(t: Seq<u8>, a: int, b: int) -> Seq<u8> {
    t.update(a, t[b]).update(b, t[a])
}

/// The identity table `0, 1, ..., 255`.
pub open spec fn identity_table() -> Seq<u8> {
    Seq::new(256, |k: int| k as u8)
}

/// The key-scheduling passes from position `i` on, with the second cursor at `j`.
pub open spec fn schedule_from(t: Seq<u8>, j: u8, key: Seq<u8>, i: nat) -> Seq<u8>
    decreases 256 - i,
{
    if i >= 256 || key.len() == 0 {
        t
    } else {
        let j2 = ((j + t[i as int] + key[(i % key.len()) as int]) % 256) as u8;
        schedule_from(swapped(t, i as int, j2 as int), j2, key, i + 1)
    }
}

/// The state that the key-scheduling algorithm builds from `key`.
pub open spec fn scheduled(key: Seq<u8>) -> Arc4State {
    Arc4State { table: schedule_from(identity_table(), 0, key, 0), i: 0, j: 0 }
}

/// One step of the generation algorithm: the next state and the byte it emits.
pub open spec fn step(s: Arc4State) -> (Arc4State, u8) {
    let i = ((s.i + 1) % 256) as u8;
    let j = ((s.j + s.table[i as int]) % 256) as u8;
    let t = swapped(s.table, i as int, j as int);
    (Arc4State { table: t, i, j }, t[((t[i as int] + t[j as int]) % 256) as int])
}

/// The state after `n` steps from `s`, and the `n` bytes emitted on the way.
pub open spec fn keystream(s: Arc4State, n: nat) -> (Arc4State, Seq<u8>)
    decreases n,
{
    if n == 0 {
        (s, Seq::empty())
    } else {
        let (s1, bytes) = keystream(s, (n - 1) as nat);
        let (s2, b) = step(s1);
        (s2, bytes.push(b))
    }
}

/// Whether `t` holds each of `0..=255` exactly once.
pub open spec fn is_permutation_table(t: Seq<u8>) -> bool {
    &&& t.len() == 256
    &&& forall|a: int, b: int| 0 <= a < b < 256 ==> t[a] != t[b]
}

/// Steps keep the table a permutation.
pub proof fn lemma_step_keeps_permutation(s: Arc4State)
    requires
        is_permutation_table(s.table),
    ensures
        is_permutation_table(step(s).0.table),
{
}

/// Keystreams keep the table a permutation.
pub proof fn lemma_keystream_keeps_permutation(s: Arc4State, n: nat)
    requires
        is_permutation_table(s.table),
    ensures
        is_permutation_table(keystream(s, n).0.table),
    decreases n,
{
    if n > 0 {
        lemma_keystream_keeps_permutation(s, (n - 1) as nat);
        lemma_step_keeps_permutation(keystream(s, (n - 1) as nat).0);
    }
}

/// The key schedule turns a permutation table into a permutation table.
proof fn lemma_schedule_keeps_permutation(t: Seq<u8>, j: u8, key: Seq<u8>, i: nat)
    requires
        is_permutation_table(t),
    ensures
        is_permutation_table(schedule_from(t, j, key, i)),
    decreases 256 - i,
{
    if i < 256 && key.len() > 0 {
        let j2 = ((j + t[i as int] + key[(i % key.len()) as int]) % 256) as u8;
        lemma_schedule_keeps_permutation(swapped(t, i as int, j2 as int), j2, key, i + 1);
    }
}

/// The state that a key schedules holds a permutation table.
pub proof fn lemma_scheduled_is_permutation(key: Seq<u8>)
    ensures
        is_permutation_table(scheduled(key).table),
{
    lemma_schedule_keeps_permutation(identity_table(), 0, key, 0);
}

/// An ARC4 keystream generator.
pub struct Arc4 {
    table: Vec<u8>,
    i: u8,
    j: u8,
}

impl View for Arc4 {
    type V = Arc4State;

    closed spec fn view(&self) -> Arc4State {
        Arc4State { table: self.table@, i: self.i, j: self.j }
    }
}

impl Arc4 {
    /// The table holds each byte value exactly once.
    pub closed spec fn wf(&self) -> bool {
        is_permutation_table(self.table@)
    }

    /// Runs the key-scheduling algorithm on `key`.
    pub fn with_key(key: &[u8]) -> (r: Self)
        requires
            0 < key@.len(),
        ensures
            r.wf(),
            r@ == scheduled(key@),
    {
        let mut table: Vec<u8> = Vec::new();
        let mut k: usize = 0;
        while k < 256
            invariant
                k <= 256,
                table@.len() == k,
                forall|m: int| 0 <= m < k ==> table@[m] == m as u8,
            decreases 256 - k,
        {
            table.push(k as u8);
            k = k + 1;
        }
        assert(table@ =~= identity_table());
        let mut i: usize = 0;
        let mut j: u8 = 0;
        while i < 256
            invariant
                i <= 256,
                table@.len() == 256,
                0 < key@.len(),
                schedule_from(table@, j, key@, i as nat) == schedule_from(identity_table(), 0, key@, 0),
            decreases 256 - i,
        {
            let ti = table[i];
            j = ((j as usize + ti as usize + key[i % key.len()] as usize) % 256) as u8;
            let tj = table[j as usize];
            table.set(i, tj);
            table.set(j as usize, ti);
            i = i + 1;
        }
        proof {
            lemma_scheduled_is_permutation(key@);
        }
        Arc4 { table, i: 0, j: 0 }
    }

    /// Emits the next `n` bytes of the keystream.
    pub fn generate(&mut self, n: usize) -> (r: Vec<u8>)
        requires
            old(self).wf(),
        ensures
            final(self).wf(),
            (final(self)@, r@) == keystream(old(self)@, n as nat),
            r@.len() == n,
    {
        let mut out: Vec<u8> = Vec::new();
        let mut k: usize = 0;
        while k < n
            invariant
                k <= n,
                self.wf(),
                (self@, out@) == keystream(old(self)@, k as nat),
                out@.len() == k,
            decreases n - k,
        {
            proof {
                lemma_step_keeps_permutation(self@);
            }
            let i: u8 = ((self.i as usize + 1) % 256) as u8;
            let ti = self.table[i as usize];
            let j: u8 = ((self.j as usize + ti as usize) % 256) as u8;
            let tj = self.table[j as usize];
            self.table.set(i as usize, tj);
            self.table.set(j as usize, ti);
            self.i = i;
            self.j = j;
            let b = self.table[((tj as usize + ti as usize) % 256) as usize];
            out.push(b);
            k = k + 1;
        }
        out
    }
}

} // verus!
