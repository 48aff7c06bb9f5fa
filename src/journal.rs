//! The journal: two append-only files that take turns. Every admitted
//! message is appended, in wire form, to the current file; once that file
//! holds `threshold` messages the journal switches to the other one and
//! truncates it. Recovery replays the older file, then the newer one.
use vstd::prelude::*;

use crate::buffer::{keep_last, lemma_push_all, push_all, MessageBuffer, MAX_CAPACITY};
use crate::message::{lemma_wire_round_trip, parse_wire, wire_text, QueueMessage};
use vstd::arithmetic::div_mod::lemma_fundamental_div_mod;
use vstd::arithmetic::div_mod::lemma_fundamental_div_mod_converse;

verus! {

/// One of the two journal files, `producer.A` and `producer.B`.
#[derive(Clone, Copy, Debug, PartialEq, Eq, Structural)]
pub enum JournalFile {
    A,
    B,
}

/// Where the next message goes: the file, and whether that file is
/// truncated before the message is appended.
#[derive(Clone, Copy, Debug, PartialEq, Eq, Structural)]
pub struct JournalStep {
    pub file: JournalFile,
    pub truncate: bool,
}

/// Why the journal could not be replayed.
#[derive(Clone, Copy, Debug, PartialEq, Eq, Structural)]
pub enum RecoveryError {
    /// Both files begin with the same offset, so neither is known to be older.
    EqualLeadingOffsets,
}

/// The file written during generation `g` (each generation is `threshold`
/// messages long).
pub open spec fn generation_file(g: int) -> JournalFile {
    if g % 2 == 0 {
        JournalFile::A
    } else {
        JournalFile::B
    }
}

/// The step for the message with index `k` (counting from zero) in the
/// stream written to a journal with rotation threshold `t`.
pub open spec fn step_at(t: nat, k: nat) -> JournalStep {
    JournalStep { file: generation_file(k as int / t as int), truncate: k % t == 0 }
}

/// The file that is not `f`.
pub open spec fn other_file(f: JournalFile) -> JournalFile {
    match f {
        JournalFile::A => JournalFile::B,
        JournalFile::B => JournalFile::A,
    }
}

/// The step for the message with index `k` in the stream written to a
/// journal with rotation threshold `t` whose first generation goes to
/// `first`; with `first == A` it is `step_at(t, k)`.
pub open spec fn step_from(first: JournalFile, t: nat, k: nat) -> JournalStep {
    let f = generation_file(k as int / t as int);
    JournalStep {
        file: if first == JournalFile::A {
            f
        } else {
            other_file(f)
        },
        truncate: k % t == 0,
    }
}

/// The contents of `file` among the pair `(A, B)`.
pub open spec fn file_of<L>(files: (Seq<L>, Seq<L>), file: JournalFile) -> Seq<L> {
    match file {
        JournalFile::A => files.0,
        JournalFile::B => files.1,
    }
}

/// The files after `step` wrote `line`.
pub open spec fn apply_step<L>(files: (Seq<L>, Seq<L>), step: JournalStep, line: L) -> (
    Seq<L>,
    Seq<L>,
) {
    let written = if step.truncate {
        seq![line]
    } else {
        file_of(files, step.file).push(line)
    };
    match step.file {
        JournalFile::A => (written, files.1),
        JournalFile::B => (files.0, written),
    }
}

/// The files `(A, B)`, both starting empty, after `lines` were written to a
/// journal with rotation threshold `t`.
pub open spec fn files_after<L>(t: nat, lines: Seq<L>) -> (Seq<L>, Seq<L>)
    decreases lines.len(),
{
    if lines.len() == 0 {
        (Seq::empty(), Seq::empty())
    } else {
        apply_step(
            files_after(t, lines.drop_last()),
            step_at(t, (lines.len() - 1) as nat),
            lines.last(),
        )
    }
}

proof fn lemma_next_index(n: int, t: int)
    requires
        t > 0,
        n >= 1,
    ensures
        ((n - 1) / t) * t <= n - 1,
        n - 1 < ((n - 1) / t) * t + t,
        n % t == 0 ==> n / t == (n - 1) / t + 1 && (n / t) * t == n,
        n % t != 0 ==> n / t == (n - 1) / t,
        0 <= (n - 1) % t < t,
        (n - 1) % t + 1 == t ==> n % t == 0,
        (n - 1) % t + 1 < t ==> n % t == (n - 1) % t + 1,
{
    lemma_fundamental_div_mod(n - 1, t);
    let g = (n - 1) / t;
    let r = (n - 1) % t;
    if r + 1 == t {
        assert(n == (g + 1) * t + 0) by (nonlinear_arith)
            requires
                n - 1 == t * g + r,
                r + 1 == t,
        ;
        lemma_fundamental_div_mod_converse(n, t, g + 1, 0);
    } else {
        assert(n == g * t + (r + 1)) by (nonlinear_arith)
            requires
                n - 1 == t * g + r,
        ;
        lemma_fundamental_div_mod_converse(n, t, g, r + 1);
    }
    assert(g * t == t * g) by (nonlinear_arith);
}

/// What the journal holds after `n >= 1` messages: the file of the current
/// generation `g` holds the messages of that generation so far, and the other
/// file holds the whole previous generation (nothing when `g == 0`).
pub proof fn lemma_files_after<L>(t: nat, lines: Seq<L>)
    requires
        t > 0,
        lines.len() >= 1,
    ensures
        ({
            let n = lines.len() as int;
            let g = (n - 1) / t as int;
            &&& 0 <= g * t <= n - 1
            &&& file_of(files_after(t, lines), generation_file(g)) == lines.subrange(g * t, n)
            &&& file_of(files_after(t, lines), generation_file(g + 1)) == if g >= 1 {
                lines.subrange((g - 1) * t, g * t)
            } else {
                Seq::empty()
            }
        }),
    decreases lines.len(),
{
    let n = lines.len() as int;
    let ti = t as int;
    let g = (n - 1) / ti;
    lemma_next_index(n, ti);
    assert(0 <= g * ti) by (nonlinear_arith)
        requires
            g >= 0,
            ti > 0,
    ;
    if n == 1 {
        assert(g == 0);
        assert(files_after(t, lines.drop_last()) == (Seq::<L>::empty(), Seq::<L>::empty()));
        assert(lines.subrange(0, 1) =~= seq![lines.last()]);
    } else {
        let prev = lines.drop_last();
        let m = n - 1;
        lemma_files_after(t, prev);
        lemma_next_index(m, ti);
        let g0 = (m - 1) / ti;
        let pf = files_after(t, prev);
        assert(files_after(t, lines) == apply_step(pf, step_at(t, m as nat), lines.last()));
        if m % ti == 0 {
            assert(g == g0 + 1);
            assert(g * ti == m);
            assert(generation_file(g + 1) == generation_file(g0));
            assert(generation_file(g) != generation_file(g0));
            assert(lines.subrange(g * ti, n) =~= seq![lines.last()]);
            assert(prev.subrange(g0 * ti, m) =~= lines.subrange((g - 1) * ti, g * ti)) by {
                assert((g - 1) * ti == g0 * ti) by (nonlinear_arith)
                    requires
                        g == g0 + 1,
                ;
            }
        } else {
            assert(g == g0);
            assert(generation_file(g + 1) != generation_file(g));
            assert(prev.subrange(g * ti, m).push(lines.last()) =~= lines.subrange(g * ti, n));
            if g >= 1 {
                assert(prev.subrange((g - 1) * ti, g * ti) =~= lines.subrange(
                    (g - 1) * ti,
                    g * ti,
                )) by {
                    assert((g - 1) * ti <= g * ti) by (nonlinear_arith)
                        requires
                            ti > 0,
                    ;
                }
            }
        }
    }
}

/// While no more than `t` messages were written, `producer.A` holds them
/// all, in order, and `producer.B` is empty.
pub proof fn lemma_journal_within_threshold<L>(t: nat, lines: Seq<L>)
    requires
        t > 0,
        lines.len() <= t,
    ensures
        files_after(t, lines).0 == lines,
        files_after(t, lines).1 == Seq::<L>::empty(),
{
    if lines.len() > 0 {
        lemma_files_after(t, lines);
        let n = lines.len() as int;
        assert((n - 1) / t as int == 0) by {
            vstd::arithmetic::div_mod::lemma_basic_div(n - 1, t as int);
        }
        let g = (n - 1) / t as int;
        assert(g * t == 0) by (nonlinear_arith)
            requires
                g == 0,
        ;
        assert(generation_file(g) == JournalFile::A);
        assert(generation_file(g + 1) == JournalFile::B);
        assert(lines.subrange(0, n) =~= lines);
        assert(files_after(t, lines).0 == lines.subrange(g * t, n));
    }
}

/// The rotation state of a journal that is being written.
pub struct Journal {
    threshold: usize,
    first: JournalFile,
    current: JournalFile,
    in_current: usize,
    written: Ghost<nat>,
}

impl Journal {
    /// The number of messages written since the journal was made.
    pub closed spec fn written(&self) -> nat {
        self.written@
    }

    /// The file of the journal's first generation.
    pub closed spec fn first_file(&self) -> JournalFile {
        self.first
    }

    /// The number of messages after which the journal switches files.
    pub closed spec fn threshold(&self) -> nat {
        self.threshold as nat
    }

    pub closed spec fn wf(&self) -> bool {
        &&& self.threshold > 0
        &&& self.in_current <= self.threshold
        &&& self.written@ == 0 ==> self.in_current == 0 && self.current == self.first
        &&& self.written@ > 0 ==> self.in_current as int == (self.written@ as int - 1) % (
        self.threshold as int) + 1 && self.current == step_from(
            self.first,
            self.threshold as nat,
            (self.written@ - 1) as nat,
        ).file
    }

    /// A journal with nothing written, switching files every `threshold`
    /// messages.
    pub fn new(threshold: usize) -> (r: Journal)
        requires
            threshold > 0,
        ensures
            r.wf(),
            r.threshold() == threshold,
            r.written() == 0,
            r.first_file() == JournalFile::A,
    {
        Journal::starting_with(threshold, JournalFile::A)
    }

    /// A journal with nothing written whose first generation goes to
    /// `first`, as after a restart.
    pub fn starting_with(threshold: usize, first: JournalFile) -> (r: Journal)
        requires
            threshold > 0,
        ensures
            r.wf(),
            r.threshold() == threshold,
            r.written() == 0,
            r.first_file() == first,
    {
        Journal { threshold, first, current: first, in_current: 0, written: Ghost(0) }
    }

    /// Where the next message goes.
    pub fn record(&mut self) -> (r: JournalStep)
        requires
            old(self).wf(),
        ensures
            final(self).wf(),
            final(self).threshold() == old(self).threshold(),
            final(self).written() == old(self).written() + 1,
            final(self).first_file() == old(self).first_file(),
            r == step_from(old(self).first_file(), old(self).threshold(), old(self).written()),
            old(self).first_file() == JournalFile::A ==> r == step_at(
                old(self).threshold(),
                old(self).written(),
            ),
    {
        let ghost k = self.written@;
        let ghost t = self.threshold as int;
        proof {
            if k > 0 {
                lemma_next_index(k as int, t);
            } else {
                assert(0int % t == 0) by (nonlinear_arith)
                    requires
                        t > 0,
                ;
                assert(0int / t == 0) by (nonlinear_arith)
                    requires
                        t > 0,
                ;
            }
            lemma_next_index(k as int + 1, t);
        }
        let r = if self.in_current == 0 {
            self.in_current = 1;
            JournalStep { file: self.current, truncate: true }
        } else if self.in_current < self.threshold {
            self.in_current = self.in_current + 1;
            JournalStep { file: self.current, truncate: false }
        } else {
            self.current = match self.current {
                JournalFile::A => JournalFile::B,
                JournalFile::B => JournalFile::A,
            };
            self.in_current = 1;
            JournalStep { file: self.current, truncate: true }
        };
        self.written = Ghost(k + 1);
        r
    }
}

/// The messages that the wire-form lines of `lines` hold, in order; lines not
/// in wire form are skipped.
pub open spec fn parsed_lines(lines: Seq<Seq<char>>) -> Seq<(usize, Seq<char>)>
    decreases lines.len(),
{
    if lines.len() == 0 {
        Seq::empty()
    } else {
        match parse_wire(lines.last()) {
            Some(m) => parsed_lines(lines.drop_last()).push(m),
            None => parsed_lines(lines.drop_last()),
        }
    }
}

/// The offset of the last of `msgs`, if any.
pub open spec fn last_offset(msgs: Seq<(usize, Seq<char>)>) -> Option<usize> {
    if msgs.len() == 0 {
        None
    } else {
        Some(msgs.last().0)
    }
}

/// The offset a restarted broker gives its next admission: one past the
/// newest message that recovery replayed (0 when there was none; it stays at
/// `usize::MAX` when that is the newest offset).
pub open spec fn resume_offset(msgs: Seq<(usize, Seq<char>)>) -> usize {
    match last_offset(msgs) {
        None => 0,
        Some(o) => if o == usize::MAX {
            usize::MAX
        } else {
            (o + 1) as usize
        },
    }
}

/// The wire-form lines of `msgs`.
pub open spec fn wire_lines(msgs: Seq<(usize, Seq<char>)>) -> Seq<Seq<char>> {
    msgs.map_values(|m: (usize, Seq<char>)| wire_text(m.0, m.1))
}

/// The texts of `lines`.
pub open spec fn texts(lines: Seq<String>) -> Seq<Seq<char>> {
    lines.map_values(|s: String| s@)
}

/// The offset of the first message among `lines`, skipping lines not in
/// wire form; `None` when no line is in wire form.
pub open spec fn leading_offset(lines: Seq<Seq<char>>) -> Option<usize> {
    let msgs = parsed_lines(lines);
    if msgs.len() == 0 {
        None
    } else {
        Some(msgs[0].0)
    }
}

/// The order in which the files `a` and `b` are replayed: the one with the
/// smaller leading offset first. A file without any line in wire form is
/// replayed as nothing, so its place does not matter.
pub open spec fn recovery_order(a: Seq<Seq<char>>, b: Seq<Seq<char>>) -> Result<
    (Seq<Seq<char>>, Seq<Seq<char>>),
    RecoveryError,
> {
    match (leading_offset(a), leading_offset(b)) {
        (Some(x), Some(y)) => if x < y {
            Ok((a, b))
        } else if x > y {
            Ok((b, a))
        } else {
            Err(RecoveryError::EqualLeadingOffsets)
        },
        _ => Ok((a, b)),
    }
}

/// The file a restarted journal writes (and truncates) first: the older of
/// two files that both hold messages, otherwise one that holds none, so that
/// the newest messages stay on disk.
pub open spec fn restart_file(a: Seq<Seq<char>>, b: Seq<Seq<char>>) -> JournalFile {
    match (leading_offset(a), leading_offset(b)) {
        (Some(x), Some(y)) => if x < y {
            JournalFile::A
        } else {
            JournalFile::B
        },
        (Some(_), None) => JournalFile::B,
        _ => JournalFile::A,
    }
}

/// What recovery puts into a buffer of capacity `cap` from the files `a`
/// and `b`.
pub open spec fn recovered(cap: nat, a: Seq<Seq<char>>, b: Seq<Seq<char>>) -> Result<
    Seq<(usize, Seq<char>)>,
    RecoveryError,
> {
    match recovery_order(a, b) {
        Ok((first, second)) => Ok(keep_last(parsed_lines(first) + parsed_lines(second), cap)),
        Err(e) => Err(e),
    }
}

proof fn lemma_parsed_wire_lines(msgs: Seq<(usize, Seq<char>)>)
    ensures
        parsed_lines(wire_lines(msgs)) == msgs,
    decreases msgs.len(),
{
    if msgs.len() > 0 {
        lemma_parsed_wire_lines(msgs.drop_last());
        assert(wire_lines(msgs).drop_last() =~= wire_lines(msgs.drop_last()));
        lemma_wire_round_trip(msgs.last().0, msgs.last().1);
        assert(msgs.drop_last().push(msgs.last()) =~= msgs);
    }
}

proof fn lemma_keep_last_suffix(s: Seq<(usize, Seq<char>)>, start: int, cap: nat)
    requires
        0 <= start <= s.len(),
        s.len() - start >= cap || start == 0,
    ensures
        keep_last(s.subrange(start, s.len() as int), cap) == keep_last(s, cap),
{
    if start == 0 {
        assert(s.subrange(0, s.len() as int) =~= s);
    } else {
        assert(keep_last(s.subrange(start, s.len() as int), cap) =~= keep_last(s, cap));
    }
}

/// Replaying what the journal wrote gives back the most recent `cap`
/// admitted messages, in order, when the rotation threshold is the buffer's
/// capacity and the offsets were assigned in increasing order.
pub proof fn lemma_recover_written(cap: nat, msgs: Seq<(usize, Seq<char>)>)
    requires
        cap > 0,
        forall|i: int, j: int| 0 <= i < j < msgs.len() ==> msgs[i].0 < msgs[j].0,
    ensures
        ({
            let files = files_after(cap, wire_lines(msgs));
            recovered(cap, files.0, files.1) == Ok::<_, RecoveryError>(keep_last(msgs, cap))
        }),
{
    let lines = wire_lines(msgs);
    let files = files_after(cap, lines);
    let n = msgs.len() as int;
    let t = cap as int;
    if n == 0 {
        assert(files.0 =~= Seq::<Seq<char>>::empty());
        assert(parsed_lines(Seq::<Seq<char>>::empty()) == Seq::<(usize, Seq<char>)>::empty());
        assert(Seq::<(usize, Seq<char>)>::empty() + Seq::<(usize, Seq<char>)>::empty()
            =~= msgs);
    } else {
        lemma_files_after(cap, lines);
        lemma_next_index(n, t);
        let g = (n - 1) / t;
        let cur = file_of(files, generation_file(g));
        let other = file_of(files, generation_file(g + 1));
        assert(cur =~= wire_lines(msgs.subrange(g * t, n)));
        lemma_parsed_wire_lines(msgs.subrange(g * t, n));
        if g == 0 {
            assert(g * t == 0) by (nonlinear_arith)
                requires
                    g == 0,
            ;
            assert(generation_file(0) == JournalFile::A);
            assert(msgs.subrange(0, n) =~= msgs);
            assert(files.0 == cur);
            assert(parsed_lines(files.0) == msgs);
            assert(files.1 =~= Seq::<Seq<char>>::empty());
            assert(parsed_lines(files.1) == Seq::<(usize, Seq<char>)>::empty());
            assert(parsed_lines(files.0) + parsed_lines(files.1) =~= msgs);
        } else {
            assert((g - 1) * t + t == g * t) by (nonlinear_arith);
            assert(other =~= wire_lines(msgs.subrange((g - 1) * t, g * t)));
            lemma_parsed_wire_lines(msgs.subrange((g - 1) * t, g * t));
            assert(leading_offset(other) == Some(msgs[(g - 1) * t].0));
            assert(leading_offset(cur) == Some(msgs[g * t].0));
            assert(msgs[(g - 1) * t].0 < msgs[g * t].0);
            assert(recovery_order(files.0, files.1) == Ok::<_, RecoveryError>((other, cur))) by {
                if generation_file(g) == JournalFile::A {
                    assert(generation_file(g + 1) == JournalFile::B);
                } else {
                    assert(generation_file(g + 1) == JournalFile::A);
                }
            }
            assert(parsed_lines(other) + parsed_lines(cur) =~= msgs.subrange((g - 1) * t, n));
            lemma_keep_last_suffix(msgs, (g - 1) * t, cap);
        }
    }
}

proof fn lemma_parsed_concat(x: Seq<Seq<char>>, y: Seq<Seq<char>>)
    ensures
        parsed_lines(x + y) == parsed_lines(x) + parsed_lines(y),
    decreases y.len(),
{
    if y.len() == 0 {
        assert(x + y =~= x);
        assert(parsed_lines(x) + parsed_lines(y) =~= parsed_lines(x));
    } else {
        lemma_parsed_concat(x, y.drop_last());
        assert((x + y).drop_last() =~= x + y.drop_last());
        match parse_wire(y.last()) {
            Some(m) => {
                assert(parsed_lines(x) + parsed_lines(y) =~= (parsed_lines(x) + parsed_lines(
                    y.drop_last(),
                )).push(m));
            },
            None => {},
        }
    }
}

/// The offset of the first message among the wire-form lines of `lines`.
pub fn first_offset(lines: &Vec<String>) -> (r: Option<usize>)
    ensures
        r == leading_offset(texts(lines@)),
{
    let mut i: usize = 0;
    while i < lines.len()
        invariant
            0 <= i <= lines@.len(),
            parsed_lines(texts(lines@.subrange(0, i as int))) == Seq::<(usize, Seq<char>)>::empty(),
        decreases lines@.len() - i,
    {
        let ghost pre = texts(lines@.subrange(0, i as int));
        let ghost post = texts(lines@.subrange(0, i + 1));
        proof {
            assert(post.drop_last() =~= pre);
            assert(post.last() == lines@[i as int]@);
        }
        match QueueMessage::try_from(lines[i].clone()) {
            Ok(m) => {
                proof {
                    let rest = texts(lines@.subrange(i + 1, lines@.len() as int));
                    assert(texts(lines@) =~= post + rest);
                    lemma_parsed_concat(post, rest);
                    assert(parsed_lines(post) =~= seq![m@]);
                }
                return Some(m.get_offset());
            },
            Err(_) => {
                assert(parsed_lines(post) == parsed_lines(pre));
            },
        }
        i = i + 1;
    }
    assert(lines@.subrange(0, i as int) =~= lines@);
    None
}

/// Pushes the messages of the wire-form lines of `lines` into `buf`,
/// skipping lines not in wire form.
pub fn replay(buf: &mut MessageBuffer, lines: &Vec<String>) -> (last: Option<usize>)
    requires
        old(buf).wf(),
    ensures
        last == last_offset(parsed_lines(texts(lines@))),
        final(buf).wf(),
        final(buf).capacity() == old(buf).capacity(),
        final(buf)@ == push_all(old(buf)@, old(buf).capacity(), parsed_lines(texts(lines@))),
{
    let mut i: usize = 0;
    let mut last: Option<usize> = None;
    while i < lines.len()
        invariant
            last == last_offset(parsed_lines(texts(lines@.subrange(0, i as int)))),
            buf.wf(),
            buf.capacity() == old(buf).capacity(),
            0 <= i <= lines@.len(),
            buf@ == push_all(
                old(buf)@,
                old(buf).capacity(),
                parsed_lines(texts(lines@.subrange(0, i as int))),
            ),
        decreases lines@.len() - i,
    {
        let ghost pre = texts(lines@.subrange(0, i as int));
        let ghost post = texts(lines@.subrange(0, i + 1));
        proof {
            assert(post.drop_last() =~= pre);
            assert(post.last() == lines@[i as int]@);
        }
        match QueueMessage::try_from(lines[i].clone()) {
            Ok(m) => {
                proof {
                    assert(parsed_lines(post) == parsed_lines(pre).push(m@));
                    assert(parsed_lines(post).drop_last() =~= parsed_lines(pre));
                }
                last = Some(m.get_offset());
                buf.push(m);
            },
            Err(_) => {
                assert(parsed_lines(post) == parsed_lines(pre));
            },
        }
        i = i + 1;
    }
    assert(lines@.subrange(0, i as int) =~= lines@);
    last
}

proof fn lemma_keep_last_twice(x: Seq<(usize, Seq<char>)>, y: Seq<(usize, Seq<char>)>, cap: nat)
    ensures
        keep_last(keep_last(x, cap) + y, cap) == keep_last(x + y, cap),
{
    assert(keep_last(keep_last(x, cap) + y, cap) =~= keep_last(x + y, cap));
}

/// Rebuilds a buffer of capacity `cap` from the journal files whose lines are
/// `a` and `b`: the file with the smaller leading offset is replayed first,
/// with the buffer's usual eviction of the oldest.
pub fn recover(cap: usize, a: &Vec<String>, b: &Vec<String>) -> (r: Result<
    (MessageBuffer, usize, JournalFile),
    RecoveryError,
>)
    requires
        0 < cap <= MAX_CAPACITY,
    ensures
        match recovered(cap as nat, texts(a@), texts(b@)) {
            Ok(msgs) => r matches Ok((buf, next, file)) && buf.wf() && buf.capacity() == cap
                && buf@ == msgs && next == resume_offset(msgs) && file == restart_file(
                texts(a@),
                texts(b@),
            ),
            Err(e) => r == Err::<(MessageBuffer, usize, JournalFile), RecoveryError>(e),
        },
{
    let a_first: bool;
    let file: JournalFile;
    match (first_offset(a), first_offset(b)) {
        (Some(x), Some(y)) => {
            if x < y {
                a_first = true;
                file = JournalFile::A;
            } else if x > y {
                a_first = false;
                file = JournalFile::B;
            } else {
                return Err(RecoveryError::EqualLeadingOffsets);
            }
        },
        (Some(_), None) => {
            a_first = true;
            file = JournalFile::B;
        },
        _ => {
            a_first = true;
            file = JournalFile::A;
        },
    }
    let mut buf = MessageBuffer::new(cap);
    let ghost c = cap as nat;
    let (l1, l2) = if a_first {
        let l1 = replay(&mut buf, a);
        let l2 = replay(&mut buf, b);
        (l1, l2)
    } else {
        let l1 = replay(&mut buf, b);
        let l2 = replay(&mut buf, a);
        (l1, l2)
    };
    let last = match l2 {
        Some(o) => Some(o),
        None => l1,
    };
    let next = match last {
        None => 0,
        Some(o) => if o == usize::MAX {
            usize::MAX
        } else {
            o + 1
        },
    };
    proof {
        let (older_msgs, newer_msgs) = if a_first {
            (parsed_lines(texts(a@)), parsed_lines(texts(b@)))
        } else {
            (parsed_lines(texts(b@)), parsed_lines(texts(a@)))
        };
        lemma_push_all(Seq::empty(), c, older_msgs);
        assert(Seq::<(usize, Seq<char>)>::empty() + older_msgs =~= older_msgs);
        let mid = keep_last(older_msgs, c);
        assert(mid.len() <= c);
        lemma_push_all(mid, c, newer_msgs);
        lemma_keep_last_twice(older_msgs, newer_msgs, c);
        let all = older_msgs + newer_msgs;
        if all.len() > 0 {
            assert(keep_last(all, c).last() == all.last());
            if newer_msgs.len() == 0 {
                assert(all =~= older_msgs);
            }
        }
    }
    Ok((buf, next, file))
}

} // verus!
