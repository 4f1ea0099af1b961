//! Per-interval command counters, the sums built from them, and the choice
//! of the command to follow.

use vstd::prelude::*;
use vstd::utf8::*;

verus! {

/// Number of counters in a sample.
pub const COUNTERS: usize = 13;

/// Number of commands that `most_used` chooses among.
pub const CHOICES: usize = 11;

/// A command that a chat message can vote for.
#[derive(Debug, Clone, Copy, PartialEq, Eq, Structural)]
pub enum Vote {
    Up,
    Left,
    Down,
    Right,
    A,
    B,
    X,
    Y,
    Demo,
    Anar,
    Start,
}

/// Counters of what was seen during one interval, or summed over several.
#[derive(Debug, Clone, Copy, PartialEq, Eq, Structural)]
pub struct Sample {
    pub message_count: u16,
    pub tpp_command_count: u16,
    pub up: u16,
    pub left: u16,
    pub down: u16,
    pub right: u16,
    pub a: u16,
    pub b: u16,
    pub x: u16,
    pub y: u16,
    pub demo: u16,
    pub anar: u16,
    pub start: u16,
}

/// The command that a payload votes for, if it is one of the recognised
/// tokens: a single letter in either case, or a whole word in lower or upper
/// case.
pub open spec fn vote_of(payload: Seq<char>) -> Option<Vote> {
    if payload == "u"@ || payload == "U"@ || payload == "n"@ || payload == "N"@ || payload
        == "haut"@ || payload == "HAUT"@ {
        Some(Vote::Up)
    } else if payload == "l"@ || payload == "L"@ || payload == "w"@ || payload == "W"@ || payload
        == "gauche"@ || payload == "GAUCHE"@ {
        Some(Vote::Left)
    } else if payload == "d"@ || payload == "D"@ || payload == "s"@ || payload == "S"@ || payload
        == "bas"@ || payload == "BAS"@ {
        Some(Vote::Down)
    } else if payload == "r"@ || payload == "R"@ || payload == "e"@ || payload == "E"@ || payload
        == "droite"@ || payload == "DROITE"@ {
        Some(Vote::Right)
    } else if payload == "a"@ || payload == "A"@ {
        Some(Vote::A)
    } else if payload == "b"@ || payload == "B"@ {
        Some(Vote::B)
    } else if payload == "x"@ || payload == "X"@ {
        Some(Vote::X)
    } else if payload == "y"@ || payload == "Y"@ {
        Some(Vote::Y)
    } else if payload == "DÉMOCRATIE"@ || payload == "DEMOCRATIE"@ || payload == "démocratie"@
        || payload == "democratie"@ {
        Some(Vote::Demo)
    } else if payload == "ANARCHIE"@ || payload == "anarchie"@ {
        Some(Vote::Anar)
    } else if payload == "start"@ || payload == "START"@ {
        Some(Vote::Start)
    } else {
        None
    }
}

/// Whether two pieces of text are the same.
pub fn same_text(a: &str, b: &str) -> (same: bool)
    ensures
        same == (a@ == b@),
{
    broadcast use encode_utf8_decode_utf8;

    let x = a.as_bytes();
    let y = b.as_bytes();
    if x.len() != y.len() {
        return false;
    }
    let mut i: usize = 0;
    while i < x.len()
        invariant
            x@ == encode_utf8(a@),
            y@ == encode_utf8(b@),
            x@.len() == y@.len(),
            i <= x@.len(),
            forall|j: int| 0 <= j < i ==> x@[j] == y@[j],
        decreases x@.len() - i,
    {
        if x[i] != y[i] {
            assert(x@[i as int] != y@[i as int]);
            return false;
        }
        i += 1;
    }
    assert(x@ =~= y@);
    assert(a@ == decode_utf8(x@) && b@ == decode_utf8(y@)) by {
        encode_utf8_valid_utf8(a@);
        encode_utf8_valid_utf8(b@);
    }
    true
}

/// Looks a payload up among the recognised command tokens.
pub fn recognize(payload: &str) -> (vote: Option<Vote>)
    ensures
        vote == vote_of(payload@),
{
    if same_text(payload, "u") || same_text(payload, "U") || same_text(payload, "n") || same_text(
        payload,
        "N",
    ) || same_text(payload, "haut") || same_text(payload, "HAUT") {
        Some(Vote::Up)
    } else if same_text(payload, "l") || same_text(payload, "L") || same_text(payload, "w")
        || same_text(payload, "W") || same_text(payload, "gauche") || same_text(
        payload,
        "GAUCHE",
    ) {
        Some(Vote::Left)
    } else if same_text(payload, "d") || same_text(payload, "D") || same_text(payload, "s")
        || same_text(payload, "S") || same_text(payload, "bas") || same_text(payload, "BAS") {
        Some(Vote::Down)
    } else if same_text(payload, "r") || same_text(payload, "R") || same_text(payload, "e")
        || same_text(payload, "E") || same_text(payload, "droite") || same_text(
        payload,
        "DROITE",
    ) {
        Some(Vote::Right)
    } else if same_text(payload, "a") || same_text(payload, "A") {
        Some(Vote::A)
    } else if same_text(payload, "b") || same_text(payload, "B") {
        Some(Vote::B)
    } else if same_text(payload, "x") || same_text(payload, "X") {
        Some(Vote::X)
    } else if same_text(payload, "y") || same_text(payload, "Y") {
        Some(Vote::Y)
    } else if same_text(payload, "DÉMOCRATIE") || same_text(payload, "DEMOCRATIE") || same_text(
        payload,
        "démocratie",
    ) || same_text(payload, "democratie") {
        Some(Vote::Demo)
    } else if same_text(payload, "ANARCHIE") || same_text(payload, "anarchie") {
        Some(Vote::Anar)
    } else if same_text(payload, "start") || same_text(payload, "START") {
        Some(Vote::Start)
    } else {
        None
    }
}

impl Vote {
    /// The number of the counter that the vote adds to.
    pub open spec fn counter(self) -> int {
        match self {
            Vote::Up => 2,
            Vote::Left => 3,
            Vote::Down => 4,
            Vote::Right => 5,
            Vote::A => 6,
            Vote::B => 7,
            Vote::X => 8,
            Vote::Y => 9,
            Vote::Demo => 10,
            Vote::Anar => 11,
            Vote::Start => 12,
        }
    }
}

/// Names each counter of two samples, so that a statement about all of
/// them can be read off for each.
proof fn lemma_counters_listed(a: Sample, b: Sample)
    ensures
        a.count(0) == a.message_count && b.count(0) == b.message_count,
        a.count(1) == a.tpp_command_count && b.count(1) == b.tpp_command_count,
        a.count(2) == a.up && b.count(2) == b.up,
        a.count(3) == a.left && b.count(3) == b.left,
        a.count(4) == a.down && b.count(4) == b.down,
        a.count(5) == a.right && b.count(5) == b.right,
        a.count(6) == a.a && b.count(6) == b.a,
        a.count(7) == a.b && b.count(7) == b.b,
        a.count(8) == a.x && b.count(8) == b.x,
        a.count(9) == a.y && b.count(9) == b.y,
        a.count(10) == a.demo && b.count(10) == b.demo,
        a.count(11) == a.anar && b.count(11) == b.anar,
        a.count(12) == a.start && b.count(12) == b.start,
{
}

impl Default for Sample {
    /// The sample in which nothing was counted.
    fn default() -> (s: Sample)
        ensures
            s == Sample::empty(),
    {
        Sample {
            message_count: 0,
            tpp_command_count: 0,
            up: 0,
            left: 0,
            down: 0,
            right: 0,
            a: 0,
            b: 0,
            x: 0,
            y: 0,
            demo: 0,
            anar: 0,
            start: 0,
        }
    }
}

impl Sample {
    /// The sample in which nothing was counted.
    pub open spec fn empty() -> Sample {
        Sample {
            message_count: 0,
            tpp_command_count: 0,
            up: 0,
            left: 0,
            down: 0,
            right: 0,
            a: 0,
            b: 0,
            x: 0,
            y: 0,
            demo: 0,
            anar: 0,
            start: 0,
        }
    }

    /// Counter number `f`: messages, commands, then one counter for each
    /// command; 0 for a number that names no counter.
    pub open spec fn count(self, f: int) -> int {
        if f == 0 {
            self.message_count as int
        } else if f == 1 {
            self.tpp_command_count as int
        } else if f == 2 {
            self.up as int
        } else if f == 3 {
            self.left as int
        } else if f == 4 {
            self.down as int
        } else if f == 5 {
            self.right as int
        } else if f == 6 {
            self.a as int
        } else if f == 7 {
            self.b as int
        } else if f == 8 {
            self.x as int
        } else if f == 9 {
            self.y as int
        } else if f == 10 {
            self.demo as int
        } else if f == 11 {
            self.anar as int
        } else if f == 12 {
            self.start as int
        } else {
            0
        }
    }

    /// Whether `rhs` can be added without a counter leaving its range.
    pub open spec fn fits_with(self, rhs: Sample) -> bool {
        forall|f: int| #[trigger] self.count(f) + rhs.count(f) <= u16::MAX
    }

    /// Whether every counter is at least that of `rhs`.
    pub open spec fn covers(self, rhs: Sample) -> bool {
        forall|f: int| #[trigger] self.count(f) >= rhs.count(f)
    }

    /// Tests `fits_with`.
    pub fn can_add(&self, rhs: &Sample) -> (fits: bool)
        ensures
            fits == self.fits_with(*rhs),
    {
        let fits = self.message_count <= u16::MAX - rhs.message_count && self.tpp_command_count
            <= u16::MAX - rhs.tpp_command_count && self.up <= u16::MAX - rhs.up && self.left
            <= u16::MAX - rhs.left && self.down <= u16::MAX - rhs.down && self.right <= u16::MAX
            - rhs.right && self.a <= u16::MAX - rhs.a && self.b <= u16::MAX - rhs.b && self.x
            <= u16::MAX - rhs.x && self.y <= u16::MAX - rhs.y && self.demo <= u16::MAX - rhs.demo
            && self.anar <= u16::MAX - rhs.anar && self.start <= u16::MAX - rhs.start;
        proof {
            if !fits {
                assert(exists|f: int| 0 <= f < COUNTERS && self.count(f) + rhs.count(f) > u16::MAX) by {
                    lemma_counters_listed(*self, *rhs);
                }
            }
        }
        fits
    }

    /// Tests `covers`.
    pub fn can_sub(&self, rhs: &Sample) -> (covers: bool)
        ensures
            covers == self.covers(*rhs),
    {
        let covers = self.message_count >= rhs.message_count && self.tpp_command_count
            >= rhs.tpp_command_count && self.up >= rhs.up && self.left >= rhs.left && self.down
            >= rhs.down && self.right >= rhs.right && self.a >= rhs.a && self.b >= rhs.b && self.x
            >= rhs.x && self.y >= rhs.y && self.demo >= rhs.demo && self.anar >= rhs.anar
            && self.start >= rhs.start;
        proof {
            if !covers {
                assert(exists|f: int| 0 <= f < COUNTERS && self.count(f) < rhs.count(f)) by {
                    lemma_counters_listed(*self, *rhs);
                }
            }
        }
        covers
    }

    /// Adds every counter of `rhs` to the counter of the same name.
    pub fn add_assign(&mut self, rhs: &Sample)
        requires
            old(self).fits_with(*rhs),
        ensures
            forall|f: int| #[trigger] final(self).count(f) == old(self).count(f) + rhs.count(f),
    {
        assert(self.count(0) + rhs.count(0) <= u16::MAX);
        assert(self.count(1) + rhs.count(1) <= u16::MAX);
        assert(self.count(2) + rhs.count(2) <= u16::MAX);
        assert(self.count(3) + rhs.count(3) <= u16::MAX);
        assert(self.count(4) + rhs.count(4) <= u16::MAX);
        assert(self.count(5) + rhs.count(5) <= u16::MAX);
        assert(self.count(6) + rhs.count(6) <= u16::MAX);
        assert(self.count(7) + rhs.count(7) <= u16::MAX);
        assert(self.count(8) + rhs.count(8) <= u16::MAX);
        assert(self.count(9) + rhs.count(9) <= u16::MAX);
        assert(self.count(10) + rhs.count(10) <= u16::MAX);
        assert(self.count(11) + rhs.count(11) <= u16::MAX);
        assert(self.count(12) + rhs.count(12) <= u16::MAX);
        self.message_count = self.message_count + rhs.message_count;
        self.tpp_command_count = self.tpp_command_count + rhs.tpp_command_count;
        self.up = self.up + rhs.up;
        self.left = self.left + rhs.left;
        self.down = self.down + rhs.down;
        self.right = self.right + rhs.right;
        self.a = self.a + rhs.a;
        self.b = self.b + rhs.b;
        self.x = self.x + rhs.x;
        self.y = self.y + rhs.y;
        self.demo = self.demo + rhs.demo;
        self.anar = self.anar + rhs.anar;
        self.start = self.start + rhs.start;
    }

    /// Takes every counter of `rhs` from the counter of the same name.
    pub fn sub_assign(&mut self, rhs: &Sample)
        requires
            old(self).covers(*rhs),
        ensures
            forall|f: int| #[trigger] final(self).count(f) == old(self).count(f) - rhs.count(f),
    {
        assert(self.count(0) >= rhs.count(0));
        assert(self.count(1) >= rhs.count(1));
        assert(self.count(2) >= rhs.count(2));
        assert(self.count(3) >= rhs.count(3));
        assert(self.count(4) >= rhs.count(4));
        assert(self.count(5) >= rhs.count(5));
        assert(self.count(6) >= rhs.count(6));
        assert(self.count(7) >= rhs.count(7));
        assert(self.count(8) >= rhs.count(8));
        assert(self.count(9) >= rhs.count(9));
        assert(self.count(10) >= rhs.count(10));
        assert(self.count(11) >= rhs.count(11));
        assert(self.count(12) >= rhs.count(12));
        self.message_count = self.message_count - rhs.message_count;
        self.tpp_command_count = self.tpp_command_count - rhs.tpp_command_count;
        self.up = self.up - rhs.up;
        self.left = self.left - rhs.left;
        self.down = self.down - rhs.down;
        self.right = self.right - rhs.right;
        self.a = self.a - rhs.a;
        self.b = self.b - rhs.b;
        self.x = self.x - rhs.x;
        self.y = self.y - rhs.y;
        self.demo = self.demo - rhs.demo;
        self.anar = self.anar - rhs.anar;
        self.start = self.start - rhs.start;
    }

    /// Whether a message with this vote can be counted without a counter
    /// leaving its range.
    pub open spec fn has_room(self, vote: Option<Vote>) -> bool {
        forall|f: int| #[trigger] self.count(f) + bump(vote, f) <= u16::MAX
    }

    /// Tests `has_room`.
    pub fn can_record(&self, vote: Option<Vote>) -> (room: bool)
        ensures
            room == self.has_room(vote),
    {
        let one = Sample::unit(vote);
        let room = self.can_add(&one);
        proof {
            if room {
                assert forall|f: int| #[trigger] self.count(f) + bump(vote, f) <= u16::MAX by {
                    assert(self.count(f) + one.count(f) <= u16::MAX);
                }
            } else if self.has_room(vote) {
                assert forall|f: int| #[trigger] self.count(f) + one.count(f) <= u16::MAX by {
                    assert(self.count(f) + bump(vote, f) <= u16::MAX);
                }
            }
        }
        room
    }

    /// What one chat message with this vote counts as.
    pub fn unit(vote: Option<Vote>) -> (s: Sample)
        ensures
            forall|f: int| #[trigger] s.count(f) == bump(vote, f),
    {
        let mut s = Sample::default();
        s.message_count = 1;
        match vote {
            None => {},
            Some(v) => {
                s.tpp_command_count = 1;
                match v {
                    Vote::Up => s.up = 1,
                    Vote::Left => s.left = 1,
                    Vote::Down => s.down = 1,
                    Vote::Right => s.right = 1,
                    Vote::A => s.a = 1,
                    Vote::B => s.b = 1,
                    Vote::X => s.x = 1,
                    Vote::Y => s.y = 1,
                    Vote::Demo => s.demo = 1,
                    Vote::Anar => s.anar = 1,
                    Vote::Start => s.start = 1,
                }
            },
        }
        s
    }

    /// Counts one chat message: the message counter goes up by one, and for
    /// a message that votes so do the command counter and the counter of
    /// the command voted for.
    pub fn record(&mut self, vote: Option<Vote>)
        requires
            old(self).has_room(vote),
        ensures
            forall|f: int| #[trigger] final(self).count(f) == old(self).count(f) + bump(vote, f),
    {
        let one = Sample::unit(vote);
        assert forall|f: int| #[trigger] self.count(f) + one.count(f) <= u16::MAX by {
            assert(self.count(f) + bump(vote, f) <= u16::MAX);
        }
        self.add_assign(&one);
    }

    /// The count that command number `i` enters the choice with: its
    /// counter, doubled for democracy and quartered for anarchy.
    pub open spec fn weight(self, i: int) -> int {
        if i == 0 {
            self.up as int
        } else if i == 1 {
            self.left as int
        } else if i == 2 {
            self.down as int
        } else if i == 3 {
            self.right as int
        } else if i == 4 {
            self.a as int
        } else if i == 5 {
            self.b as int
        } else if i == 6 {
            self.x as int
        } else if i == 7 {
            self.y as int
        } else if i == 8 {
            self.demo * 2
        } else if i == 9 {
            self.anar as int / 4
        } else if i == 10 {
            self.start as int
        } else {
            0
        }
    }

    /// The order in which the commands are ranked: by weight, and among
    /// equal weights by their number.
    pub open spec fn ranks_below(self, i: int, j: int) -> bool {
        self.weight(i) < self.weight(j) || (self.weight(i) == self.weight(j) && i < j)
    }

    /// How many of the commands `0..n` rank above command `i`.
    pub open spec fn above(self, i: int, n: int) -> int
        decreases n,
    {
        if n <= 0 {
            0
        } else {
            self.above(i, n - 1) + if self.ranks_below(i, n - 1) {
                1int
            } else {
                0int
            }
        }
    }

    /// The command that exactly one other command ranks above.
    pub open spec fn second_highest(self) -> int {
        choose|i: int| 0 <= i < CHOICES && self.above(i, CHOICES as int) == 1
    }

    /// If `i` ranks below `j`, then whatever ranks above `j` ranks above
    /// `i`, and so does `j`.
    pub proof fn lemma_above_grows(self, i: int, j: int, n: int)
        requires
            self.ranks_below(i, j),
            0 <= n,
        ensures
            self.above(i, n) >= self.above(j, n) + if j < n && 0 <= j {
                1int
            } else {
                0int
            },
        decreases n,
    {
        if n > 0 {
            self.lemma_above_grows(i, j, n - 1);
        }
    }

    /// A command below `top` alone has exactly one command above it.
    pub proof fn lemma_above_one(self, i: int, top: int, n: int)
        requires
            0 <= n,
            0 <= top,
            self.ranks_below(i, top),
            forall|j: int| 0 <= j < n && j != top ==> !self.ranks_below(i, j),
        ensures
            self.above(i, n) == if top < n {
                1int
            } else {
                0int
            },
        decreases n,
    {
        if n > 0 {
            self.lemma_above_one(i, top, n - 1);
        }
    }

    /// No two commands have the same number of commands above them, so the
    /// command with exactly one above it is `second_highest`.
    pub proof fn lemma_second_highest_is(self, i: int)
        requires
            0 <= i < CHOICES,
            self.above(i, CHOICES as int) == 1,
        ensures
            self.second_highest() == i,
    {
        let j = self.second_highest();
        if j != i {
            if self.ranks_below(i, j) {
                self.lemma_above_grows(i, j, CHOICES as int);
            } else {
                self.lemma_above_grows(j, i, CHOICES as int);
            }
        }
    }

    /// Where all commands weigh the same, as they do when nothing was
    /// counted, the choice falls on the last command but one: anarchy.
    pub proof fn lemma_even_choice(self)
        requires
            forall|i: int, j: int|
                0 <= i < CHOICES && 0 <= j < CHOICES ==> self.weight(i) == self.weight(j),
        ensures
            self.second_highest() == 9,
            label(self.second_highest()) == "anarchie"@,
    {
        assert(self.weight(9) == self.weight(10));
        assert forall|j: int| 0 <= j < 11 && j != 10 implies !self.ranks_below(9, j) by {
            assert(self.weight(9) == self.weight(j));
        }
        self.lemma_above_one(9, 10, 11);
        self.lemma_second_highest_is(9);
    }

    /// The command to follow: of the eleven commands, ranked by weight, the
    /// second from the top.
    pub fn most_used(&self) -> (name: &'static str)
        ensures
            name@ == label(self.second_highest()),
    {
        let w: [u32; 11] = [
            self.up as u32,
            self.left as u32,
            self.down as u32,
            self.right as u32,
            self.a as u32,
            self.b as u32,
            self.x as u32,
            self.y as u32,
            self.demo as u32 * 2,
            self.anar as u32 / 4,
            self.start as u32,
        ];
        assert(forall|i: int| 0 <= i < 11 ==> w@[i] == self.weight(i));
        let mut top: usize = 0;
        let mut i: usize = 1;
        while i < 11
            invariant
                1 <= i <= 11,
                top < i,
                forall|k: int| 0 <= k < 11 ==> w@[k] == self.weight(k),
                forall|j: int| 0 <= j < i && j != top ==> self.ranks_below(j, top as int),
            decreases 11 - i,
        {
            let ghost before = top as int;
            if w[i] >= w[top] {
                top = i;
            }
            i += 1;
            assert forall|j: int| 0 <= j < i && j != top implies self.ranks_below(
                j,
                top as int,
            ) by {
                if j != before {
                    assert(self.ranks_below(j, before));
                }
            }
        }
        let mut second: usize = if top == 0 {
            1
        } else {
            0
        };
        let mut i: usize = 0;
        while i < 11
            invariant
                i <= 11,
                top < 11,
                second < 11,
                second != top,
                forall|k: int| 0 <= k < 11 ==> w@[k] == self.weight(k),
                forall|j: int|
                    0 <= j < i && j != top && j != second ==> self.ranks_below(j, second as int),
            decreases 11 - i,
        {
            let ghost before = second as int;
            if i != top && i != second {
                if w[second] < w[i] || (w[second] == w[i] && second < i) {
                    second = i;
                }
            }
            i += 1;
            assert forall|j: int| 0 <= j < i && j != top && j != second implies self.ranks_below(
                j,
                second as int,
            ) by {
                if j != before {
                    assert(self.ranks_below(j, before));
                }
            }
        }
        proof {
            assert forall|j: int| 0 <= j < 11 && j != top implies !self.ranks_below(
                second as int,
                j,
            ) by {
                if j != second {
                    assert(self.ranks_below(j, second as int));
                }
            }
            assert(self.ranks_below(second as int, top as int));
            self.lemma_above_one(second as int, top as int, 11);
            self.lemma_second_highest_is(second as int);
        }
        label_name(second)
    }
}

/// What counting one message with this vote adds to counter `f`.
pub open spec fn bump(vote: Option<Vote>, f: int) -> int {
    if f == 0 {
        1
    } else {
        match vote {
            Some(v) => if f == 1 || f == v.counter() {
                1
            } else {
                0
            },
            None => 0,
        }
    }
}

/// The text that stands for command number `i` in a message.
pub open spec fn label(i: int) -> Seq<char> {
    if i == 0 {
        "n"@
    } else if i == 1 {
        "w"@
    } else if i == 2 {
        "s"@
    } else if i == 3 {
        "e"@
    } else if i == 4 {
        "a"@
    } else if i == 5 {
        "b"@
    } else if i == 6 {
        "x"@
    } else if i == 7 {
        "y"@
    } else if i == 8 {
        "democratie"@
    } else if i == 9 {
        "anarchie"@
    } else {
        "start"@
    }
}

/// The text that stands for command number `i` in a message.
fn label_name(i: usize) -> (name: &'static str)
    ensures
        name@ == label(i as int),
{
    if i == 0 {
        "n"
    } else if i == 1 {
        "w"
    } else if i == 2 {
        "s"
    } else if i == 3 {
        "e"
    } else if i == 4 {
        "a"
    } else if i == 5 {
        "b"
    } else if i == 6 {
        "x"
    } else if i == 7 {
        "y"
    } else if i == 8 {
        "democratie"
    } else if i == 9 {
        "anarchie"
    } else {
        "start"
    }
}

} // verus!
