//! Parks: intersections joined by alleys, as built from rows of numbers.

use vstd::prelude::*;

verus! {

/// The numbers of a park description: blocks of lines, each line a row of
/// numbers.
///
/// Block 0 opens with the line `[intersections, alleys]` and goes on with one
/// line `[a, b, length]` per alley. Block 1 holds three lines: the wells, the
/// exits and the start. The first number of each of these three lines is a
/// count that is not read; the identifiers follow it.
#[derive(Debug, Clone, PartialEq, Eq)]
pub struct Sets(pub Vec<Vec<Vec<usize>>>);

/// The rows that a vector of rows holds.
pub open spec fn rows_view(rows: Vec<Vec<usize>>) -> Seq<Seq<usize>> {
    Seq::new(rows.len() as nat, |i: int| rows[i]@)
}

impl View for Sets {
    type V = Seq<Seq<Seq<usize>>>;

    open spec fn view(&self) -> Seq<Seq<Seq<usize>>> {
        Seq::new(self.0.len() as nat, |b: int| rows_view(self.0[b]))
    }
}

/// A crossing of alleys. Identifiers count from 1; 0 stands for "none".
#[derive(Debug, Clone, Copy, PartialEq, Eq, Structural)]
pub struct Intersection {
    pub id: usize,
    pub start: bool,
    pub well: bool,
    pub exit: bool,
}

/// An alley of `length` steps between the intersections `a` and `b`.
#[derive(Debug, Clone, Copy, PartialEq, Eq, Structural)]
pub struct Alley {
    pub a: Intersection,
    pub b: Intersection,
    pub length: usize,
}

/// A park: its intersections in the order of their identifiers, its alleys,
/// and the index of the intersection where the walk begins.
#[derive(Debug, Clone, PartialEq, Eq)]
pub struct Config {
    pub inters: Vec<Intersection>,
    pub alleys: Vec<Alley>,
    pub starting_pos: usize,
}

/// The mathematical content of a [`Config`].
pub struct Park {
    pub inters: Seq<Intersection>,
    pub alleys: Seq<Alley>,
    pub starting_pos: usize,
}

impl View for Config {
    type V = Park;

    open spec fn view(&self) -> Park {
        Park { inters: self.inters@, alleys: self.alleys@, starting_pos: self.starting_pos }
    }
}

impl Intersection {
    /// The placeholder for an identifier that names no intersection.
    pub open spec fn missing() -> Intersection {
        Intersection { id: 0, start: false, well: false, exit: false }
    }

    pub fn new(id: usize, start: bool, well: bool, exit: bool) -> (inter: Intersection)
        ensures
            inter == (Intersection { id, start, well, exit }),
    {
        Intersection { id, start, well, exit }
    }
}

impl Alley {
    pub fn new(a: Intersection, b: Intersection, length: usize) -> (alley: Alley)
        ensures
            alley == (Alley { a, b, length }),
    {
        Alley { a, b, length }
    }
}

/// Whether `id` occurs in `line` after the leading count.
pub open spec fn listed(line: Seq<usize>, id: usize) -> bool {
    exists|i: int| 1 <= i < line.len() && line[i] == id
}

impl Sets {
    /// The number at `index` of line `line` of block `block`.
    pub open spec fn at(self, block: int, line: int, index: int) -> usize {
        self.0[block][line][index]
    }

    pub open spec fn inters_count(self) -> usize {
        self.at(0, 0, 0)
    }

    pub open spec fn alleys_count(self) -> usize {
        self.at(0, 0, 1)
    }

    pub open spec fn wells(self) -> Seq<usize> {
        self.0[1][0]@
    }

    pub open spec fn exits(self) -> Seq<usize> {
        self.0[1][1]@
    }

    pub open spec fn start(self) -> usize {
        self.at(1, 2, 1)
    }

    /// Every number that a park is built from is present, and the number of
    /// intersections leaves room for the identifier of the last one.
    pub open spec fn well_formed(self) -> bool {
        &&& self.0.len() >= 2
        &&& self.0[0].len() >= 1
        &&& self.0[0][0].len() >= 2
        &&& self.inters_count() < usize::MAX
        &&& self.alleys_count() < self.0[0].len()
        &&& forall|i: int| 1 <= i <= self.alleys_count() ==> (#[trigger] self.0[0][i]).len() >= 3
        &&& self.0[1].len() >= 3
        &&& self.0[1][2].len() >= 2
    }

    /// Whether `id` names one of the park's intersections.
    pub open spec fn names(self, id: usize) -> bool {
        1 <= id <= self.inters_count()
    }

    /// The intersection that `id` names, with its marks, or the placeholder
    /// where `id` names none.
    pub open spec fn intersection(self, id: usize) -> Intersection {
        if self.names(id) {
            Intersection {
                id,
                start: id == self.start(),
                well: listed(self.wells(), id),
                exit: listed(self.exits(), id),
            }
        } else {
            Intersection::missing()
        }
    }

    /// The alley that line `i + 1` of block 0 describes.
    pub open spec fn alley(self, i: int) -> Alley {
        Alley {
            a: self.intersection(self.at(0, i + 1, 0)),
            b: self.intersection(self.at(0, i + 1, 1)),
            length: self.at(0, i + 1, 2),
        }
    }

    /// The park that the numbers describe.
    pub open spec fn park(self) -> Park {
        Park {
            inters: Seq::new(
                self.inters_count() as nat,
                |k: int| self.intersection((k + 1) as usize),
            ),
            alleys: Seq::new(self.alleys_count() as nat, |i: int| self.alley(i)),
            starting_pos: if self.names(self.start()) {
                (self.start() - 1) as usize
            } else {
                0
            },
        }
    }

    /// Tells whether a park can be built from these numbers.
    pub fn is_well_formed(&self) -> (ok: bool)
        ensures
            ok == self.well_formed(),
    {
        if self.0.len() < 2 || self.0[0].len() < 1 || self.0[0][0].len() < 2 {
            return false;
        }
        let alleys_count: usize = self.0[0][0][1];
        if self.0[0][0][0] == usize::MAX || alleys_count >= self.0[0].len() {
            return false;
        }
        if self.0[1].len() < 3 || self.0[1][2].len() < 2 {
            return false;
        }
        let mut i: usize = 1;
        while i <= alleys_count
            invariant
                1 <= i <= alleys_count + 1,
                self.0.len() >= 2,
                alleys_count == self.alleys_count(),
                alleys_count < self.0[0].len(),
                forall|j: int| 1 <= j < i ==> (#[trigger] self.0[0][j]).len() >= 3,
            decreases alleys_count + 1 - i,
        {
            if self.0[0][i].len() < 3 {
                return false;
            }
            i = i + 1;
        }
        true
    }
}

/// Whether `id` occurs in `line` after the leading count and before `end`.
pub open spec fn listed_before(line: Seq<usize>, id: usize, end: int) -> bool {
    exists|i: int| 1 <= i < end && i < line.len() && line[i] == id
}

/// For each identifier from 1 to `count`, whether `line` lists it.
fn marks(line: &Vec<usize>, count: usize) -> (flags: Vec<bool>)
    ensures
        flags.len() == count,
        forall|k: int| 0 <= k < count ==> flags[k] == listed(line@, (k + 1) as usize),
{
    let mut flags: Vec<bool> = Vec::new();
    let mut k: usize = 0;
    while k < count
        invariant
            k <= count,
            flags.len() == k,
            forall|j: int| 0 <= j < k ==> !flags[j],
        decreases count - k,
    {
        flags.push(false);
        k = k + 1;
    }
    let mut i: usize = 1;
    while i < line.len()
        invariant
            1 <= i,
            flags.len() == count,
            forall|j: int|
                0 <= j < count ==> flags[j] == listed_before(line@, (j + 1) as usize, i as int),
        decreases line.len() - i,
    {
        let id: usize = line[i];
        if 1 <= id && id <= count {
            flags.set(id - 1, true);
        }
        i = i + 1;
    }
    flags
}

/// The intersection that `id` names among `inters`, or the placeholder.
fn find(inters: &Vec<Intersection>, id: usize) -> (inter: Intersection)
    ensures
        inter == if 1 <= id <= inters.len() {
            inters[id - 1]
        } else {
            Intersection::missing()
        },
{
    if 1 <= id && id <= inters.len() {
        inters[id - 1]
    } else {
        Intersection::new(0, false, false, false)
    }
}

impl Config {
    /// Builds the park that `sets` describes.
    ///
    /// Intersections get the identifiers 1 to the count given, and the marks
    /// of the lines that list them. An alley end whose identifier names no
    /// intersection becomes the placeholder. The walk begins at the marked
    /// start, or at the first intersection where the start names none.
    pub fn build(sets: Sets) -> (config: Config)
        requires
            sets.well_formed(),
        ensures
            config@ == sets.park(),
    {
        let inters_count: usize = sets.0[0][0][0];
        let alleys_count: usize = sets.0[0][0][1];
        let start: usize = sets.0[1][2][1];
        let wells = marks(&sets.0[1][0], inters_count);
        let exits = marks(&sets.0[1][1], inters_count);

        let mut inters: Vec<Intersection> = Vec::new();
        let mut id: usize = 1;
        while id <= inters_count
            invariant
                1 <= id <= inters_count + 1,
                inters_count == sets.inters_count(),
                inters_count < usize::MAX,
                start == sets.start(),
                wells.len() == inters_count,
                exits.len() == inters_count,
                forall|k: int|
                    0 <= k < inters_count ==> wells[k] == listed(sets.wells(), (k + 1) as usize),
                forall|k: int|
                    0 <= k < inters_count ==> exits[k] == listed(sets.exits(), (k + 1) as usize),
                inters.len() == id - 1,
                forall|k: int|
                    0 <= k < inters.len() ==> inters[k] == sets.intersection((k + 1) as usize),
            decreases inters_count + 1 - id,
        {
            inters.push(Intersection::new(id, id == start, wells[id - 1], exits[id - 1]));
            id = id + 1;
        }

        let mut alleys: Vec<Alley> = Vec::new();
        let mut i: usize = 1;
        while i <= alleys_count
            invariant
                1 <= i <= alleys_count + 1,
                sets.well_formed(),
                alleys_count == sets.alleys_count(),
                inters.len() == sets.inters_count(),
                forall|k: int|
                    0 <= k < inters.len() ==> inters[k] == sets.intersection((k + 1) as usize),
                alleys.len() == i - 1,
                forall|k: int| 0 <= k < alleys.len() ==> alleys[k] == sets.alley(k),
            decreases alleys_count + 1 - i,
        {
            let a = find(&inters, sets.0[0][i][0]);
            let b = find(&inters, sets.0[0][i][1]);
            alleys.push(Alley::new(a, b, sets.0[0][i][2]));
            i = i + 1;
        }

        let starting_pos: usize = if 1 <= start && start <= inters_count {
            start - 1
        } else {
            0
        };
        let config = Config { inters, alleys, starting_pos };
        assert(config@.inters =~= sets.park().inters);
        assert(config@.alleys =~= sets.park().alleys);
        config
    }
}

} // verus!
