//! The LSM index's manifest: which sorted tables exist at each level, and
//! how they are named.
use vstd::prelude::*;
use crate::text::dec;
use crate::tags::numbered;

verus! {

/// The next table number, and for each level its tables as
/// (level, number) in order of creation.
#[derive(Debug, Clone)]
pub struct Manifest {
    pub next_seq: u32,
    pub levels: Vec<Vec<(u32, u32)>>,
}

pub open spec fn levels_view(levels: Seq<Vec<(u32, u32)>>) -> Seq<Seq<(u32, u32)>> {
    levels.map_values(|v: Vec<(u32, u32)>| v@)
}

/// The tables of a level without the one with this number.
pub open spec fn without_table(s: Seq<(u32, u32)>, level: u32, seq: u32) -> Seq<(u32, u32)>
    decreases s.len(),
{
    if s.len() == 0 {
        Seq::empty()
    } else if s.last() == (level, seq) {
        without_table(s.drop_last(), level, seq)
    } else {
        without_table(s.drop_last(), level, seq).push(s.last())
    }
}

/// The levels grown with empty ones so that `level` exists.
pub open spec fn with_level(ls: Seq<Seq<(u32, u32)>>, level: nat) -> Seq<Seq<(u32, u32)>> {
    if level < ls.len() {
        ls
    } else {
        ls + Seq::new((level + 1 - ls.len()) as nat, |i: int| Seq::<(u32, u32)>::empty())
    }
}

impl Manifest {
    pub open spec fn view_levels(&self) -> Seq<Seq<(u32, u32)>> {
        levels_view(self.levels@)
    }

    /// A manifest with one empty level and numbering from 0.
    pub fn new() -> (r: Self)
        ensures
            r.next_seq == 0,
            r.view_levels() == seq![Seq::<(u32, u32)>::empty()],
    {
        let mut levels: Vec<Vec<(u32, u32)>> = Vec::new();
        levels.push(Vec::new());
        let r = Manifest { next_seq: 0, levels };
        assert(r.view_levels() =~= seq![Seq::<(u32, u32)>::empty()]);
        r
    }

    /// The next table number, which is then used up.
    pub fn allocate_seq(&mut self) -> (r: u32)
        requires
            old(self).next_seq < u32::MAX,
        ensures
            r == old(self).next_seq,
            final(self).next_seq == old(self).next_seq + 1,
            final(self).levels == old(self).levels,
    {
        let seq = self.next_seq;
        self.next_seq = self.next_seq + 1;
        seq
    }

    /// Adds empty levels up to `level`.
    pub fn ensure_level(&mut self, level: u32)
        ensures
            final(self).next_seq == old(self).next_seq,
            final(self).view_levels() == with_level(old(self).view_levels(), level as nat),
    {
        let ghost l0 = self.view_levels();
        while self.levels.len() <= level as usize
            invariant
                self.next_seq == old(self).next_seq,
                l0 == old(self).view_levels(),
                l0.len() <= self.levels@.len() <= (if level as nat + 1 > l0.len() { level as nat + 1 } else { l0.len() }),
                self.view_levels() == l0 + Seq::new((self.levels@.len() - l0.len()) as nat, |i: int| Seq::<(u32, u32)>::empty()),
            decreases level as int + 1 - self.levels@.len(),
        {
            let ghost before = self.view_levels();
            self.levels.push(Vec::new());
            assert(self.view_levels() =~= before.push(Seq::<(u32, u32)>::empty()));
            assert(self.view_levels() =~= l0 + Seq::new((self.levels@.len() - l0.len()) as nat, |i: int| Seq::<(u32, u32)>::empty()));
        }
        proof {
            if (level as nat) < l0.len() {
                assert(self.view_levels() =~= l0);
            }
        }
    }

    /// Records a new table at a level (added if missing).
    pub fn add_sstable(&mut self, level: u32, seq: u32)
        ensures
            final(self).next_seq == old(self).next_seq,
            final(self).view_levels() == with_level(old(self).view_levels(), level as nat).update(
                level as int,
                with_level(old(self).view_levels(), level as nat)[level as int].push((level, seq)),
            ),
    {
        self.ensure_level(level);
        let ghost before = self.view_levels();
        let idx = level as usize;
        assert(self.view_levels().len() == self.levels@.len());
        assert(idx < self.levels@.len());
        let mut tables = self.levels.remove(idx);
        tables.push((level, seq));
        self.levels.insert(idx, tables);
        assert(self.view_levels() =~= before.update(level as int, before[level as int].push((level, seq))));
    }

    /// Forgets a table, if its level exists.
    pub fn remove_sstable(&mut self, level: u32, seq: u32)
        ensures
            final(self).next_seq == old(self).next_seq,
            (level as nat) < old(self).view_levels().len() ==> final(self).view_levels() == old(self).view_levels().update(
                level as int,
                without_table(old(self).view_levels()[level as int], level, seq),
            ),
            (level as nat) >= old(self).view_levels().len() ==> final(self).view_levels() == old(self).view_levels(),
    {
        let idx = level as usize;
        if idx < self.levels.len() {
            let ghost before = self.view_levels();
            let tables = self.levels.remove(idx);
            let mut kept: Vec<(u32, u32)> = Vec::new();
            let mut i: usize = 0;
            while i < tables.len()
                invariant
                    i <= tables@.len(),
                    kept@ == without_table(tables@.take(i as int), level, seq),
                decreases tables@.len() - i,
            {
                assert(tables@.take(i + 1).drop_last() == tables@.take(i as int));
                let t = tables[i];
                if !(t.0 == level && t.1 == seq) {
                    kept.push(t);
                }
                i = i + 1;
            }
            assert(tables@.take(tables@.len() as int) == tables@);
            self.levels.insert(idx, kept);
            assert(self.view_levels() =~= before.update(level as int, without_table(before[level as int], level, seq)));
        }
    }
}

/// The file name of a sorted table: `L<level>-<number>.sst`.
pub fn sstable_file_name(level: u32, seq: u32) -> (r: String)
    ensures
        r@ == "L"@ + dec(level as nat) + "-"@ + dec(seq as nat) + ".sst"@,
{
    let mut s = numbered("L", level as u64);
    s.append("-");
    let n = crate::text::u64_to_string(seq as u64);
    s.append(n.as_str());
    s.append(".sst");
    s
}

} // verus!
