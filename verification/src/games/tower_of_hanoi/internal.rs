use vstd::prelude::*;

pub mod error;

verus! {

pub const POLE_COUNT: usize = 3;

pub struct Disk {
    pub size: usize,
}

pub struct Pole {
    pub disks: Vec<Disk>,
}

impl Pole {
    /// Disks are stacked bottom to top and never grow upward: a disk is
    /// at most as large as the disk below it. The poles a game builds
    /// hold strictly shrinking stacks, since all its disks differ in
    /// size; the move check itself only refuses a strictly larger disk.
    pub open spec fn stacked_ok(self) -> bool {
        forall|i: int, j: int|
            0 <= i < j < self.disks@.len() ==> (#[trigger] self.disks@[i]).size >= (
            #[trigger] self.disks@[j]).size
    }

    /// Build a pole holding `disks_count` disks, the largest at the
    /// bottom, sizes counting down to one at the top.
    pub fn build(disks_count: usize) -> (r: Self)
        ensures
            r.disks@.len() == disks_count,
            forall|i: int| 0 <= i < disks_count ==> (#[trigger] r.disks@[i]).size == disks_count - i,
            r.stacked_ok(),
    {
        let mut disks: Vec<Disk> = Vec::new();
        let mut size: usize = disks_count;
        while size >= 1
            invariant
                size <= disks_count,
                disks@.len() == disks_count - size,
                forall|i: int|
                    0 <= i < disks@.len() ==> (#[trigger] disks@[i]).size == disks_count - i,
            decreases size,
        {
            disks.push(Disk { size });
            size = size - 1;
        }
        Self { disks }
    }
}

/// The three poles and the number of disks in play. Every pole keeps its
/// disks ordered, smaller upon larger.
pub struct TowerOfHanoi {
    pub poles: Vec<Pole>,
    pub disk_count: usize,
}

impl TowerOfHanoi {
    pub open spec fn wf(self) -> bool {
        &&& self.poles@.len() == POLE_COUNT
        &&& forall|p: int| 0 <= p < POLE_COUNT ==> (#[trigger] self.poles@[p]).stacked_ok()
    }

    /// All disks start on the leftmost pole; the other two are empty.
    pub fn new(disk_count: usize) -> (r: Self)
        ensures
            r.wf(),
            r.disk_count == disk_count,
            r.poles@[0].disks@.len() == disk_count,
            r.poles@[1].disks@.len() == 0,
            r.poles@[2].disks@.len() == 0,
            forall|i: int|
                0 <= i < disk_count ==> (#[trigger] r.poles@[0].disks@[i]).size == disk_count - i,
    {
        let mut poles: Vec<Pole> = Vec::new();
        poles.push(Pole::build(disk_count));
        poles.push(Pole::build(0));
        poles.push(Pole::build(0));
        Self { poles, disk_count }
    }

    /// Move the top disk of `from` onto `to`. Taking from an empty pole,
    /// or laying a bigger disk on a smaller one, is rejected and changes
    /// nothing.
    pub fn move_disk(&mut self, from: usize, to: usize) -> (res: Result<(), &'static str>)
        requires
            old(self).wf(),
            from < POLE_COUNT,
            to < POLE_COUNT,
        ensures
            final(self).wf(),
            final(self).disk_count == old(self).disk_count,
            old(self).poles@[from as int].disks@.len() == 0 ==> (res matches Err(m) && m@
                == "This pole has no disk"@) && *final(self) == *old(self),
            old(self).poles@[from as int].disks@.len() > 0 && old(
                self,
            ).poles@[to as int].disks@.len() > 0 && old(self).poles@[from as int].disks@.last().size
                > old(self).poles@[to as int].disks@.last().size ==> (res matches Err(m) && m@
                == "You can't move a bigger disk on a smaller disk"@) && *final(self) == *old(
                self,
            ),
            old(self).poles@[from as int].disks@.len() > 0 && (old(
                self,
            ).poles@[to as int].disks@.len() == 0 || old(
                self,
            ).poles@[from as int].disks@.last().size <= old(
                self,
            ).poles@[to as int].disks@.last().size) ==> res is Ok,
            res is Ok && from != to ==> final(self).poles@[from as int].disks@ == old(
                self,
            ).poles@[from as int].disks@.drop_last() && final(self).poles@[to as int].disks@ == old(
                self,
            ).poles@[to as int].disks@.push(old(self).poles@[from as int].disks@.last()) && (
            forall|p: int|
                0 <= p < POLE_COUNT && p != from && p != to ==> (#[trigger] final(self).poles@[p])
                    == old(self).poles@[p]),
            res is Ok && from == to ==> final(self).poles@[from as int].disks@ == old(
                self,
            ).poles@[from as int].disks@ && (forall|p: int|
                0 <= p < POLE_COUNT && p != from ==> (#[trigger] final(self).poles@[p]) == old(
                    self,
                ).poles@[p]),
    {
        let from_len = self.poles[from].disks.len();
        if from_len == 0 {
            return Err("This pole has no disk");
        }
        let disk_size = self.poles[from].disks[from_len - 1].size;
        let to_len = self.poles[to].disks.len();
        if to_len > 0 {
            let top_size = self.poles[to].disks[to_len - 1].size;
            if disk_size > top_size {
                return Err("You can't move a bigger disk on a smaller disk");
            }
        }
        let ghost prev = *self;
        let disk = self.poles[from].disks.pop().unwrap();
        self.poles[to].disks.push(disk);
        proof {
            if from != to {
                assert forall|p: int|
                    0 <= p < POLE_COUNT && p != from && p != to implies (#[trigger] self.poles@[p])
                    == prev.poles@[p] by {}
                assert forall|i: int, j: int|
                    0 <= i < j < self.poles@[to as int].disks@.len() implies (
                #[trigger] self.poles@[to as int].disks@[i]).size >= (
                #[trigger] self.poles@[to as int].disks@[j]).size by {
                    if j + 1 < self.poles@[to as int].disks@.len() {
                    } else {
                        assert(self.poles@[to as int].disks@[j] == disk);
                        if to_len > 0 {
                            assert(prev.poles@[to as int].disks@[i].size >= prev.poles@[
                                to as int
                            ].disks@[to_len - 1].size);
                        }
                    }
                }
            } else {
                assert(self.poles@[from as int].disks@ =~= prev.poles@[from as int].disks@);
            }
        }
        Ok(())
    }

    /// The game is won when every disk has reached the rightmost pole and
    /// that stack shrinks strictly upward.
    pub fn win(&self) -> (r: bool)
        requires
            self.wf(),
        ensures
            r == (self.poles@[POLE_COUNT - 1].disks@.len() == self.disk_count && (forall|i: int|
                1 <= i < self.poles@[POLE_COUNT - 1].disks@.len() ==> (#[trigger] self.poles@[
                    POLE_COUNT - 1
                ].disks@[i]).size < self.poles@[POLE_COUNT - 1].disks@[i - 1].size)),
    {
        if self.poles[POLE_COUNT - 1].disks.len() != self.disk_count {
            return false;
        }
        let mut i: usize = 1;
        while i < self.poles[POLE_COUNT - 1].disks.len()
            invariant
                self.wf(),
                1 <= i,
                forall|k: int|
                    1 <= k < i ==> (#[trigger] self.poles@[POLE_COUNT - 1].disks@[k]).size
                        < self.poles@[POLE_COUNT - 1].disks@[k - 1].size,
            decreases self.poles@[POLE_COUNT - 1].disks@.len() - i,
        {
            if self.poles[POLE_COUNT - 1].disks[i - 1].size <= self.poles[POLE_COUNT
                - 1].disks[i].size {
                return false;
            }
            i = i + 1;
        }
        true
    }
}

} // verus!
