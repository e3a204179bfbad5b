//! What the bring-up of the controller and a command amount to, over every run
//! of their machines.

use vstd::prelude::*;
use crate::ahci::{
    command_header, command_table, fis, implemented, program_write, Access, Bring, Dma, Issue, IssueStep, Outcome, Step,
};
use crate::bytes;

verus! {

/// The state `t` is `s` after its access returned `o` at tick `now`.
#[verifier::opaque]
pub open spec fn follows(s: Bring, o: Outcome, now: u64, t: Bring) -> bool {
    t == s.after(o, now)
}

/// A run of the bring-up: from its start on, each state is the one before it
/// after its access returned the next outcome.
pub open spec fn is_run(states: Seq<Bring>, outs: Seq<(Outcome, u64)>) -> bool {
    &&& states.len() == outs.len() + 1
    &&& states[0] == Bring { step: Step::Reset, pi: 0, count: 0, port: 0, deadline: 0 }
    &&& forall|k: int|
        0 <= k < outs.len() ==> follows(#[trigger] states[k], outs[k].0, outs[k].1, states[k + 1])
}

/// In the run, the register at `off` was read at `k` and held `v`.
pub open spec fn read_at(
    states: Seq<Bring>,
    outs: Seq<(Outcome, u64)>,
    k: int,
    off: int,
    v: u32,
) -> bool {
    &&& 0 <= k < outs.len()
    &&& states[k].access() == Access::Read(off as u64)
    &&& outs[k].0 == Outcome::Value(v)
}

/// The ports that a controller has, of the four that are looked at.
pub open spec fn has_port(pi: u32, cap: u32, p: int) -> bool {
    &&& 0 <= p < 4
    &&& p < (cap & 0x1F) + 1
    &&& pi & (1u32 << (p as u32)) != 0
}

proof fn port_bits(pi: u32, cap: u32, p: u32)
    requires
        p < 4,
    ensures
        implemented(pi, p) == (pi & (1u32 << p) != 0),
        cap % 32 == cap & 0x1F,
{
    assert((pi % 2 == 1 <==> pi & (1u32 << 0u32) != 0) && (pi / 2 % 2 == 1 <==> pi & (1u32 << 1u32)
        != 0) && (pi / 4 % 2 == 1 <==> pi & (1u32 << 2u32) != 0) && (pi / 8 % 2 == 1 <==> pi & (1u32
        << 3u32) != 0) && cap % 32 == cap & 0x1F) by (bit_vector);
}

/// How far a state has come.
spec fn rank(s: Step) -> int {
    match s {
        Step::Reset => 0,
        Step::ResetWait => 1,
        Step::ReadGhc => 2,
        Step::Enable(_) => 3,
        Step::ReadPorts => 4,
        Step::ReadCap => 5,
        Step::Done => 7,
        Step::Failed => 8,
        _ => 6,
    }
}

/// The next port that is looked at is the first one from `p` on that is there.
proof fn at_port_is_next(b: Bring, p: u32, now: u64)
    requires
        p <= 4,
        b.count <= 4,
    ensures
        ({
            let r = b.at_port(p, now);
            &&& r.pi == b.pi && r.count == b.count
            &&& r.port >= p
            &&& forall|q: u32| p <= q < r.port && q < b.count ==> !implemented(b.pi, q)
            &&& r.step == Step::StopRead || r.step == Step::Done
            &&& r.step == Step::StopRead ==> r.port < b.count && r.port < 4 && implemented(
                b.pi,
                r.port,
            )
            &&& r.step == Step::Done ==> r.port >= b.count
            &&& r.port <= 4
        }),
    decreases 4 - p,
{
    if p < b.count && p < 4 && !implemented(b.pi, p) {
        at_port_is_next(b, (p + 1) as u32, now);
    }
}

/// What one step of the bring-up keeps.
#[verifier::spinoff_prover]
proof fn step_goes_on(s: Bring, o: Outcome, now: u64, t: Bring)
    requires
        follows(s, o, now, t),
        rank(s.step) <= 5 ==> s.port == 0,
        s.count <= 4,
        s.port < 4 || s.step == Step::Done,
        s.port <= 4,
    ensures
        ({
            &&& rank(t.step) >= rank(s.step)
            &&& t.count <= 4 && t.port <= 4
            &&& t.port < 4 || t.step == Step::Done
            &&& rank(s.step) >= 5 ==> t.pi == s.pi
            &&& rank(s.step) >= 6 ==> t.count == s.count
            &&& t.port >= s.port
            &&& rank(s.step) >= 6 && t.port == s.port ==> rank(t.step) == rank(s.step)
            &&& rank(s.step) == 6 && t.port != s.port ==> {
                &&& forall|q: u32| s.port < q < t.port && q < s.count ==> !implemented(s.pi, q)
                &&& t.step == Step::StopRead || (t.step == Step::Done && t.port >= s.count)
                &&& t.step == Step::StopRead ==> t.port < s.count && implemented(s.pi, t.port)
            }
            &&& rank(s.step) == 7 ==> t == s
            &&& rank(t.step) == 7 && rank(s.step) == 5 ==> t.port >= t.count && forall|q: u32|
                q < t.count ==> !implemented(s.pi, q)
            &&& rank(t.step) == 6 && rank(s.step) == 5 ==> t.step == Step::StopRead && t.port
                < t.count && implemented(s.pi, t.port) && forall|q: u32|
                q < t.port ==> !implemented(s.pi, q)
            &&& rank(s.step) < 5 ==> rank(t.step) <= 5 || t.step == Step::Failed
            &&& rank(s.step) == 5 && t != s ==> 6 <= rank(t.step) <= 7
            &&& rank(s.step) == 8 ==> t == s
            &&& rank(s.step) < 6 && rank(t.step) < 6 ==> t.port == s.port
            &&& s.step == Step::ReadPorts ==> match o {
                Outcome::Value(v) => t.pi == v && t.step == Step::ReadCap,
                _ => t == s,
            }
            &&& s.step == Step::ReadCap ==> match o {
                Outcome::Value(v) => rank(t.step) >= 6 && t.count == (if v % 32 + 1 < 4 {
                    v % 32 + 1
                } else {
                    4
                }),
                _ => t == s,
            }
            &&& t.step is Signature ==> t.port == s.port && (s.step is Signature || (s.step
                is LinkCheck && (o matches Outcome::Value(v) && v % 16 == 3)))
            &&& t.step is Identify ==> t.port == s.port && (s.step is Identify || (s.step
                is Signature && (o matches Outcome::Value(v) && (v == 0x0000_0101 || v
                == 0xEB14_0101))))
            &&& rank(s.step) == 6 && t.port != s.port ==> s.step is Identify || (s.step is Alloc && o
                == Outcome::Blocks(None)) || (s.step is LinkCheck && (o matches Outcome::Value(v) && v
                % 16 != 3)) || (s.step is Signature && (o matches Outcome::Value(v) && v
                != 0x0000_0101 && v != 0xEB14_0101))
            &&& s.step is Identify && o is Disk ==> t.port != s.port
        }),
{
    reveal(follows);
    if s.port < 4 {
        at_port_is_next(s, (s.port + 1) as u32, now);
    }
    if let Outcome::Value(v) = o {
        let np = v % 32 + 1;
        let c: u32 = if np < 4 {
            np as u32
        } else {
            4
        };
        at_port_is_next(Bring { count: c, ..s }, 0, now);
    }
}

/// The facts that hold all along a run.
proof fn along(states: Seq<Bring>, outs: Seq<(Outcome, u64)>, k: int)
    requires
        is_run(states, outs),
        0 <= k < states.len(),
    ensures
        states[k].count <= 4,
        states[k].port <= 4,
        states[k].port < 4 || states[k].step == Step::Done,
        rank(states[k].step) <= 5 ==> states[k].port == 0,
    decreases k,
{
    if k > 0 {
        along(states, outs, k - 1);
        assert(follows(states[k - 1], outs[k - 1].0, outs[k - 1].1, states[k - 1 + 1]));
        step_goes_on(states[k - 1], outs[k - 1].0, outs[k - 1].1, states[k]);
    }
}

/// What was read stays known.
proof fn known_after(
    states: Seq<Bring>,
    outs: Seq<(Outcome, u64)>,
    a: int,
    pi: u32,
    b: int,
    cap: u32,
    k: int,
)
    requires
        is_run(states, outs),
        read_at(states, outs, a, 0x0C, pi),
        read_at(states, outs, b, 0, cap),
        0 <= k < states.len(),
    ensures
        states[a].step == Step::ReadPorts,
        states[b].step == Step::ReadCap,
        k > a ==> states[k].pi == pi && rank(states[k].step) >= 5,
        k <= a ==> rank(states[k].step) <= 4,
        k > b ==> rank(states[k].step) >= 6 && states[k].count == (if cap % 32 + 1 < 4 {
            cap % 32 + 1
        } else {
            4
        }),
        k <= b ==> rank(states[k].step) <= 5,
    decreases k,
{
    along(states, outs, a);
    along(states, outs, b);
    along(states, outs, k);
    later(states, outs, k, a);
    later(states, outs, k, b);
    if k > 0 {
        known_after(states, outs, a, pi, b, cap, k - 1);
        along(states, outs, k - 1);
        assert(follows(states[k - 1], outs[k - 1].0, outs[k - 1].1, states[k - 1 + 1]));
        step_goes_on(states[k - 1], outs[k - 1].0, outs[k - 1].1, states[k]);
    }
}

/// A run does not go back.
proof fn later(states: Seq<Bring>, outs: Seq<(Outcome, u64)>, k: int, l: int)
    requires
        is_run(states, outs),
        0 <= k < states.len(),
        0 <= l < states.len(),
    ensures
        k <= l ==> rank(states[k].step) <= rank(states[l].step) && states[k].port
            <= states[l].port,
    decreases l - k,
{
    if k < l {
        later(states, outs, k, l - 1);
        along(states, outs, l - 1);
        assert(follows(states[l - 1], outs[l - 1].0, outs[l - 1].1, states[l - 1 + 1]));
        step_goes_on(states[l - 1], outs[l - 1].0, outs[l - 1].1, states[l]);
    }
}

/// Some state of the run up to `k` starts on port `p`.
spec fn visited(states: Seq<Bring>, k: int, p: int) -> bool {
    exists|j: int|
        0 <= j <= k && (#[trigger] states[j]).step == Step::StopRead && states[j].port == p
}

/// Up to `k`, every port that is there and is behind has been started on.
proof fn visits(
    states: Seq<Bring>,
    outs: Seq<(Outcome, u64)>,
    a: int,
    pi: u32,
    b: int,
    cap: u32,
    k: int,
)
    requires
        is_run(states, outs),
        read_at(states, outs, a, 0x0C, pi),
        read_at(states, outs, b, 0, cap),
        b < k < states.len(),
    ensures
        a < k,
        states[k].pi == pi,
        forall|q: u32|
            q < states[k].count && implemented(pi, q) && (q < states[k].port || (q == states[k].port
                && rank(states[k].step) == 6)) ==> #[trigger] visited(states, k, q as int),
        rank(states[k].step) == 6 ==> states[k].port < states[k].count && implemented(
            pi,
            states[k].port,
        ),
        states[k].step == Step::Done ==> states[k].port >= states[k].count,
        states[k].step != Step::Failed,
    decreases k,
{
    known_after(states, outs, a, pi, b, cap, k);
    known_after(states, outs, a, pi, b, cap, k - 1);
    known_after(states, outs, a, pi, b, cap, b);
    along(states, outs, k - 1);
    let (s, t) = (states[k - 1], states[k]);
    assert(follows(states[k - 1], outs[k - 1].0, outs[k - 1].1, states[k - 1 + 1]));
    step_goes_on(s, outs[k - 1].0, outs[k - 1].1, t);
    if k - 1 > b {
        visits(states, outs, a, pi, b, cap, k - 1);
    }
    assert forall|q: u32|
        q < t.count && implemented(pi, q) && (q < t.port || (q == t.port && rank(t.step)
            == 6)) implies #[trigger] visited(states, k, q as int) by {
        if k - 1 > b && visited(states, k - 1, q as int) {
            let j = choose|j: int|
                0 <= j <= k - 1 && (#[trigger] states[j]).step == Step::StopRead && states[j].port
                    == q;
            assert(states[j].step == Step::StopRead && states[j].port == q);
        } else {
            assert(states[k].step == Step::StopRead && states[k].port == q);
        }
    }
}

/// A bring-up that ends well has looked at exactly the ports that the
/// controller has, among its first four: each of them is stopped first, by way
/// of its command register at `0x118 + 0x80 p`, and no register of another port
/// is touched.
pub proof fn every_port_is_visited(
    states: Seq<Bring>,
    outs: Seq<(Outcome, u64)>,
    a: int,
    pi: u32,
    b: int,
    cap: u32,
    p: int,
)
    requires
        is_run(states, outs),
        read_at(states, outs, a, 0x0C, pi),
        read_at(states, outs, b, 0, cap),
        states.last().access() == Access::Finish(true),
        0 <= p < 32,
    ensures
        has_port(pi, cap, p) ==> exists|k: int|
            0 <= k < states.len() && (#[trigger] states[k]).access() == Access::Read(
                (0x118 + 0x80 * p) as u64,
            ),
        !has_port(pi, cap, p) ==> forall|k: int|
            0 <= k < states.len() ==> !touches(#[trigger] states[k].access(), p),
{
    let n = states.len() - 1;
    if p < 4 {
        port_bits(pi, cap, p as u32);
    }
    port_bits(pi, cap, 0);
    known_after(states, outs, a, pi, b, cap, n);
    assert(n > b);
    visits(states, outs, a, pi, b, cap, n);
    if has_port(pi, cap, p) {
        assert(visited(states, n, p as u32 as int));
        let k = choose|k: int|
            0 <= k <= n && (#[trigger] states[k]).step == Step::StopRead && states[k].port == p;
        assert(states[k].access() == Access::Read((0x118 + 0x80 * p) as u64));
    } else {
        assert forall|k: int| 0 <= k < states.len() implies !touches(
            #[trigger] states[k].access(),
            p,
        ) by {
            known_after(states, outs, a, pi, b, cap, k);
            along(states, outs, k);
            if k > b {
                visits(states, outs, a, pi, b, cap, k);
            }
            let q = states[k].port as int;
            port_bits(pi, cap, 0);
            if q < 4 {
                port_bits(pi, cap, q as u32);
            }
            if rank(states[k].step) == 6 {
                assert(q != p);
            }
        }
    }
}

/// The access goes to a register of port `p`, or identifies the disk at it.
pub open spec fn touches(a: Access, p: int) -> bool {
    match a {
        Access::Read(off) => 0x100 + 0x80 * p <= off < 0x180 + 0x80 * p,
        Access::Write(off, _) => 0x100 + 0x80 * p <= off < 0x180 + 0x80 * p,
        Access::Identify(q) => q.number == p,
        _ => false,
    }
}

/// The disks are identified in the order of their ports, each of them once.
pub proof fn ports_are_identified_in_order(
    states: Seq<Bring>,
    outs: Seq<(Outcome, u64)>,
    k: int,
    l: int,
)
    requires
        is_run(states, outs),
        0 <= k < l < states.len(),
        states[k].access() is Identify,
        states[l].access() is Identify,
        outs[k].0 is Disk,
    ensures
        (states[k].access()->Identify_0).number < (states[l].access()->Identify_0).number,
{
    along(states, outs, k);
    later(states, outs, k + 1, l);
    assert(follows(states[k], outs[k].0, outs[k].1, states[k + 1]));
    step_goes_on(states[k], outs[k].0, outs[k].1, states[k + 1]);
}

/// The link of port `p` was read as up before `k`.
pub open spec fn link_read_up(states: Seq<Bring>, outs: Seq<(Outcome, u64)>, k: int, p: int) -> bool {
    exists|j: int, v: u32|
        j < k && #[trigger] read_at(states, outs, j, 0x128 + 0x80 * p, v) && v & 0xF == 3
}

/// The signature of port `p` was read as that of an ATA or ATAPI disk before
/// `k`.
pub open spec fn disk_read(states: Seq<Bring>, outs: Seq<(Outcome, u64)>, k: int, p: int) -> bool {
    exists|j: int, v: u32|
        j < k && #[trigger] read_at(states, outs, j, 0x124 + 0x80 * p, v) && (v == 0x0000_0101 || v
            == 0xEB14_0101)
}

proof fn signs(states: Seq<Bring>, outs: Seq<(Outcome, u64)>, k: int)
    requires
        is_run(states, outs),
        0 <= k < states.len(),
    ensures
        states[k].step is Signature || states[k].step is Identify ==> link_read_up(
            states,
            outs,
            k,
            states[k].port as int,
        ),
        states[k].step is Identify ==> disk_read(states, outs, k, states[k].port as int),
    decreases k,
{
    if k > 0 {
        let j = k - 1;
        signs(states, outs, j);
        along(states, outs, j);
        assert(follows(states[j], outs[j].0, outs[j].1, states[j + 1]));
        step_goes_on(states[j], outs[j].0, outs[j].1, states[j + 1]);
        let p = states[j].port as int;
        if link_read_up(states, outs, j, p) {
            let (i, v) = choose|i: int, v: u32|
                i < j && #[trigger] read_at(states, outs, i, 0x128 + 0x80 * p, v) && v & 0xF == 3;
            assert(read_at(states, outs, i, 0x128 + 0x80 * p, v));
        }
        if disk_read(states, outs, j, p) {
            let (i, v) = choose|i: int, v: u32|
                i < j && #[trigger] read_at(states, outs, i, 0x124 + 0x80 * p, v) && (v
                    == 0x0000_0101 || v == 0xEB14_0101);
            assert(read_at(states, outs, i, 0x124 + 0x80 * p, v));
        }
        if let Outcome::Value(v) = outs[j].0 {
            assert(v % 16 == v & 0xF) by (bit_vector);
            if states[j].step is LinkCheck && v % 16 == 3 {
                assert(read_at(states, outs, j, 0x128 + 0x80 * p, v));
            }
            if states[j].step is Signature && (v == 0x0000_0101 || v == 0xEB14_0101) {
                assert(read_at(states, outs, j, 0x124 + 0x80 * p, v));
            }
        }
    }
}

/// Only a port whose link was up and which showed the signature of a disk is
/// identified.
pub proof fn only_disks_are_identified(states: Seq<Bring>, outs: Seq<(Outcome, u64)>, k: int)
    requires
        is_run(states, outs),
        0 <= k < states.len(),
        states[k].access() is Identify,
    ensures
        ({
            let p = (states[k].access()->Identify_0).number as int;
            link_read_up(states, outs, k, p) && disk_read(states, outs, k, p)
        }),
{
    signs(states, outs, k);
}

/// Port `p` is identified in the run up to `k`.
pub open spec fn identified(states: Seq<Bring>, k: int, p: int) -> bool {
    exists|j: int|
        0 <= j <= k && (#[trigger] states[j]).access() is Identify && (
        states[j].access()->Identify_0).number == p
}

/// Whatever is read of port `p` shows a disk.
pub open spec fn shows_a_disk(states: Seq<Bring>, outs: Seq<(Outcome, u64)>, p: int) -> bool {
    &&& forall|k: int, v: u32| #[trigger]
        read_at(states, outs, k, 0x128 + 0x80 * p, v) ==> v & 0xF == 3
    &&& forall|k: int, v: u32| #[trigger]
        read_at(states, outs, k, 0x124 + 0x80 * p, v) ==> v == 0x0000_0101 || v == 0xEB14_0101
    &&& forall|k: int| 0 <= k < outs.len() ==> (#[trigger] outs[k]).0 != Outcome::Blocks(None)
}

proof fn disk_is_not_passed(states: Seq<Bring>, outs: Seq<(Outcome, u64)>, p: int, j: int, k: int)
    requires
        is_run(states, outs),
        0 <= j <= k < states.len(),
        states[j].step == Step::StopRead,
        states[j].port == p,
        shows_a_disk(states, outs, p),
    ensures
        states[k].port == p && rank(states[k].step) == 6 || identified(states, k, p),
    decreases k,
{
    along(states, outs, j);
    if k > j {
        disk_is_not_passed(states, outs, p, j, k - 1);
        along(states, outs, k - 1);
        assert(follows(states[k - 1], outs[k - 1].0, outs[k - 1].1, states[k - 1 + 1]));
        step_goes_on(states[k - 1], outs[k - 1].0, outs[k - 1].1, states[k]);
        let s = states[k - 1];
        if identified(states, k - 1, p) {
            let i = choose|i: int|
                0 <= i <= k - 1 && (#[trigger] states[i]).access() is Identify && (
                states[i].access()->Identify_0).number == p;
            assert(states[i].access() is Identify);
        } else {
            assert(!(s.access() is Identify));
            if let Outcome::Value(v) = outs[k - 1].0 {
                assert(v % 16 == v & 0xF) by (bit_vector);
                if s.step is LinkCheck {
                    assert(read_at(states, outs, k - 1, 0x128 + 0x80 * p, v));
                }
                if s.step is Signature {
                    assert(read_at(states, outs, k - 1, 0x124 + 0x80 * p, v));
                }
            }
        }
    }
}

/// A bring-up that ends well has identified every disk: each port that the
/// controller has whose link is up and whose signature is that of a disk,
/// unless there was no memory for a port.
pub proof fn every_disk_is_identified(
    states: Seq<Bring>,
    outs: Seq<(Outcome, u64)>,
    a: int,
    pi: u32,
    b: int,
    cap: u32,
    p: int,
)
    requires
        is_run(states, outs),
        read_at(states, outs, a, 0x0C, pi),
        read_at(states, outs, b, 0, cap),
        states.last().access() == Access::Finish(true),
        has_port(pi, cap, p),
        shows_a_disk(states, outs, p),
    ensures
        identified(states, states.len() - 1, p),
{
    let n = states.len() - 1;
    port_bits(pi, cap, p as u32);
    known_after(states, outs, a, pi, b, cap, n);
    visits(states, outs, a, pi, b, cap, n);
    assert(visited(states, n, p as u32 as int));
    let j = choose|j: int|
        0 <= j <= n && (#[trigger] states[j]).step == Step::StopRead && states[j].port == p;
    disk_is_not_passed(states, outs, p, j, n);
}

// ---------- a command ----------

/// The state `t` is `s` after its access returned `o` at tick `now`.
#[verifier::opaque]
pub open spec fn comes_next(s: Issue, o: Outcome, now: u64, t: Issue) -> bool {
    t == s.after(o, now)
}

/// A run of a command on port `p`.
pub open spec fn is_command(states: Seq<Issue>, outs: Seq<(Outcome, u64)>, p: u32) -> bool {
    &&& states.len() == outs.len() + 1
    &&& states[0].port == p
    &&& states[0].step == IssueStep::Idle
    &&& forall|k: int|
        0 <= k < outs.len() ==> comes_next(
            #[trigger] states[k],
            outs[k].0,
            outs[k].1,
            states[k + 1],
        )
}

/// In the run, the register at `off` was read at `k` and held `v`.
pub open spec fn seen_at(
    states: Seq<Issue>,
    outs: Seq<(Outcome, u64)>,
    k: int,
    off: int,
    v: u32,
) -> bool {
    &&& 0 <= k < outs.len()
    &&& states[k].access() == Access::Read(off as u64)
    &&& outs[k].0 == Outcome::Value(v)
}

/// The command was started at `k`.
pub open spec fn started_at(states: Seq<Issue>, outs: Seq<(Outcome, u64)>, k: int, p: u32) -> bool {
    &&& 0 <= k < outs.len()
    &&& states[k].access() == Access::Write((0x138 + 0x80 * p) as u64, 1)
    &&& outs[k].0 == Outcome::Written
}

/// The port was found idle before `k`: not busy, then without a command.
pub open spec fn idle_before(states: Seq<Issue>, outs: Seq<(Outcome, u64)>, k: int, p: u32) -> bool {
    exists|i: int, v: u32|
        i + 1 < k && #[trigger] seen_at(states, outs, i, 0x120 + 0x80 * p, v) && v & 0x80 == 0
            && seen_at(states, outs, i + 1, 0x138 + 0x80 * p, 0)
}

spec fn stage(s: IssueStep) -> int {
    match s {
        IssueStep::Idle => 0,
        IssueStep::IdleSlots => 0,
        IssueStep::Clear => 1,
        IssueStep::Start => 2,
        IssueStep::Running => 3,
        IssueStep::ReadStatus => 4,
        IssueStep::ReadTask(_) => 5,
        IssueStep::Done(_) => 6,
    }
}

#[verifier::spinoff_prover]
proof fn command_step(s: Issue, o: Outcome, now: u64, t: Issue)
    requires
        comes_next(s, o, now, t),
    ensures
        t.port == s.port,
        stage(t.step) >= stage(s.step),
        stage(t.step) > 0 && stage(s.step) == 0 ==> t.step == IssueStep::Done(false) || (t.step
            == IssueStep::Clear && s.step == IssueStep::IdleSlots && o == Outcome::Value(0)),
        t.step == IssueStep::IdleSlots ==> s.step == IssueStep::IdleSlots && t == s || (s.step
            == IssueStep::Idle && (o matches Outcome::Value(v) && v & 0x80 == 0)),
        s.step == IssueStep::IdleSlots && t.step == IssueStep::IdleSlots ==> !(o is Value),
        stage(t.step) == 1 ==> s.step == IssueStep::Clear || stage(s.step) == 0,
        stage(t.step) == 2 ==> 1 <= stage(s.step),
        stage(t.step) == 3 ==> stage(s.step) == 3 || (s.step == IssueStep::Start && o
            == Outcome::Written),
        s.step == IssueStep::Start && o == Outcome::Written ==> t.step == IssueStep::Running,
        stage(t.step) == 4 ==> stage(s.step) == 4 || (s.step == IssueStep::Running && (o matches Outcome::Value(
            v,
        ) && v & 1 == 0)),
        t.step is ReadTask ==> t.step == s.step || (s.step == IssueStep::ReadStatus && o
            == Outcome::Value(t.step->ReadTask_0)),
        t.step == IssueStep::Done(true) ==> s.step == t.step || (s.step is ReadTask && s.step->ReadTask_0
            & 0x4000_0000 == 0 && (o matches Outcome::Value(v) && v & 1 == 0)),
{
    reveal(comes_next);
    if let Outcome::Value(v) = o {
        assert((v / 0x80 % 2 == 1 <==> v & 0x80 != 0) && (v % 2 == 1 <==> v & 1 != 0) && (v % 2 == 0
            <==> v & 1 == 0)) by (bit_vector);
    }
    if let IssueStep::ReadTask(is) = s.step {
        assert(is / 0x4000_0000 % 2 == 1 <==> is & 0x4000_0000 != 0) by (bit_vector);
    }
}

/// The command was started, and its slot was read as free at `l`, later on.
pub open spec fn ran_until(states: Seq<Issue>, outs: Seq<(Outcome, u64)>, p: u32, l: int) -> bool {
    &&& exists|k: int| k < l && #[trigger] started_at(states, outs, k, p)
    &&& exists|v: u32| #[trigger] seen_at(states, outs, l, 0x138 + 0x80 * p, v) && v & 1 == 0
}

proof fn registers_follow(states: Seq<Issue>, outs: Seq<(Outcome, u64)>, p: u32, n: int)
    requires
        is_command(states, outs, p),
        p < 32,
        0 <= n < states.len(),
    ensures
        states[n].port == p,
        states[n].step == IssueStep::Running ==> exists|k: int|
            k < n && #[trigger] started_at(states, outs, k, p),
        states[n].step == IssueStep::ReadStatus ==> exists|l: int|
            l < n && #[trigger] ran_until(states, outs, p, l),
        states[n].step is ReadTask ==> exists|l: int, m: int|
            l < m < n && #[trigger] ran_until(states, outs, p, l) && #[trigger] seen_at(
                states,
                outs,
                m,
                0x110 + 0x80 * p,
                states[n].step->ReadTask_0,
            ),
        states[n].step == IssueStep::Done(true) ==> exists|l: int, m: int, q: int, v: u32, w: u32|
            l < m < q < n && #[trigger] ran_until(states, outs, p, l) && #[trigger] seen_at(
                states,
                outs,
                m,
                0x110 + 0x80 * p,
                v,
            ) && v & 0x4000_0000 == 0 && #[trigger] seen_at(states, outs, q, 0x120 + 0x80 * p, w) && w
                & 1 == 0,
    decreases n,
{
    if n > 0 {
        let i = n - 1;
        registers_follow(states, outs, p, i);
        assert(comes_next(states[i], outs[i].0, outs[i].1, states[i + 1]));
        command_step(states[i], outs[i].0, outs[i].1, states[n]);
        let s = states[i];
        let t = states[n];
        if t.step == IssueStep::Running && s.step == IssueStep::Start {
            assert(started_at(states, outs, i, p));
        }
        if t.step == IssueStep::ReadStatus && s.step == IssueStep::Running {
            assert(seen_at(states, outs, i, 0x138 + 0x80 * p, outs[i].0->Value_0));
            assert(ran_until(states, outs, p, i));
        }
        if t.step is ReadTask && s.step == IssueStep::ReadStatus {
            let l = choose|l: int| l < i && #[trigger] ran_until(states, outs, p, l);
            assert(ran_until(states, outs, p, l) && seen_at(
                states,
                outs,
                i,
                0x110 + 0x80 * p,
                t.step->ReadTask_0,
            ));
        }
        if t.step == IssueStep::Done(true) && s.step is ReadTask {
            let (l, m) = choose|l: int, m: int|
                l < m < i && #[trigger] ran_until(states, outs, p, l) && #[trigger] seen_at(
                    states,
                    outs,
                    m,
                    0x110 + 0x80 * p,
                    s.step->ReadTask_0,
                );
            assert(ran_until(states, outs, p, l) && seen_at(
                states,
                outs,
                m,
                0x110 + 0x80 * p,
                s.step->ReadTask_0,
            ));
            assert(seen_at(states, outs, i, 0x120 + 0x80 * p, outs[i].0->Value_0));
        }
    }
}

/// A command that ends well was started, then its slot was read as free, and
/// then neither the interrupt status nor the task file reported an error.
pub proof fn success_follows_the_registers(
    states: Seq<Issue>,
    outs: Seq<(Outcome, u64)>,
    p: u32,
)
    requires
        is_command(states, outs, p),
        p < 32,
        states.last().access() == Access::Finish(true),
    ensures
        exists|l: int, m: int, q: int, v: u32, w: u32|
            l < m < q && #[trigger] ran_until(states, outs, p, l) && #[trigger] seen_at(
                states,
                outs,
                m,
                0x110 + 0x80 * p,
                v,
            ) && v & 0x4000_0000 == 0 && #[trigger] seen_at(states, outs, q, 0x120 + 0x80 * p, w) && w
                & 1 == 0,
{
    registers_follow(states, outs, p, states.len() - 1);
}

proof fn idle_was_seen(states: Seq<Issue>, outs: Seq<(Outcome, u64)>, p: u32, n: int)
    requires
        is_command(states, outs, p),
        p < 32,
        0 <= n < states.len(),
        forall|k: int| 0 <= k < outs.len() && (#[trigger] states[k]).access() is Read ==> outs[k].0 is Value,
    ensures
        states[n].port == p,
        1 <= stage(states[n].step) <= 5 ==> idle_before(states, outs, n, p),
        states[n].step == IssueStep::IdleSlots ==> n > 0 && outs[n - 1].0 is Value && seen_at(
            states,
            outs,
            n - 1,
            0x120 + 0x80 * p,
            outs[n - 1].0->Value_0,
        ) && outs[n - 1].0->Value_0 & 0x80 == 0,
    decreases n,
{
    if n > 0 {
        let m = n - 1;
        idle_was_seen(states, outs, p, m);
        assert(comes_next(states[m], outs[m].0, outs[m].1, states[m + 1]));
        command_step(states[m], outs[m].0, outs[m].1, states[n]);
        if 1 <= stage(states[m].step) <= 5 {
            let (i, v) = choose|i: int, v: u32|
                i + 1 < m && #[trigger] seen_at(states, outs, i, 0x120 + 0x80 * p, v) && v & 0x80
                    == 0 && seen_at(states, outs, i + 1, 0x138 + 0x80 * p, 0);
            assert(seen_at(states, outs, i, 0x120 + 0x80 * p, v));
        } else if states[n].step == IssueStep::Clear && stage(states[m].step) == 0 {
            assert(seen_at(states, outs, m - 1, 0x120 + 0x80 * p, outs[m - 1].0->Value_0));
            assert(seen_at(states, outs, m - 1 + 1, 0x138 + 0x80 * p, 0));
        }
    }
}

/// A command is started only on a port that was read as not busy and without a
/// command, and it is started once.
pub proof fn started_on_an_idle_port(
    states: Seq<Issue>,
    outs: Seq<(Outcome, u64)>,
    p: u32,
    k: int,
    l: int,
)
    requires
        is_command(states, outs, p),
        p < 32,
        forall|k: int| 0 <= k < outs.len() && (#[trigger] states[k]).access() is Read ==> outs[k].0 is Value,
        started_at(states, outs, k, p),
    ensures
        idle_before(states, outs, k, p),
        started_at(states, outs, l, p) ==> l == k,
{
    idle_was_seen(states, outs, p, k);
    registers_follow(states, outs, p, k);
    if started_at(states, outs, l, p) && l != k {
        registers_follow(states, outs, p, l);
        if k < l {
            started_is_past(states, outs, p, k, l);
        } else {
            started_is_past(states, outs, p, l, k);
        }
    }
}

proof fn started_is_past(states: Seq<Issue>, outs: Seq<(Outcome, u64)>, p: u32, k: int, l: int)
    requires
        is_command(states, outs, p),
        0 <= k < l < states.len(),
        states[k].step == IssueStep::Start,
        outs[k].0 == Outcome::Written,
    ensures
        stage(states[l].step) >= 3,
    decreases l,
{
    assert(comes_next(states[l - 1], outs[l - 1].0, outs[l - 1].1, states[l - 1 + 1]));
    command_step(states[l - 1], outs[l - 1].0, outs[l - 1].1, states[l]);
    if l - 1 > k {
        started_is_past(states, outs, p, k, l - 1);
    }
}

/// A number of 48 bits is put together from its bytes.
proof fn six_bytes(v: int)
    requires
        0 <= v,
    ensures
        v % 0x100 + 0x100 * (v / 0x100 % 0x100) + 0x1_0000 * (v / 0x1_0000 % 0x100) + 0x100_0000 * (v
            / 0x100_0000 % 0x100) + 0x1_0000_0000 * (v / 0x1_0000_0000 % 0x100) + 0x100_0000_0000
            * (v / 0x100_0000_0000 % 0x100) == v % 0x1_0000_0000_0000,
{
    let a = v / 0x100;
    let b = a / 0x100;
    let c = b / 0x100;
    let d = c / 0x100;
    let e = d / 0x100;
    let f = e / 0x100;
    assert(b == v / 0x1_0000 && c == v / 0x100_0000 && d == v / 0x1_0000_0000 && e == v
        / 0x100_0000_0000 && f == v / 0x1_0000_0000_0000);
}

/// What a disk reads out of a command table: the command, the 48 bits of the
/// sector's number and the count, each from its bytes, and the memory of the
/// data behind the command.
#[verifier::spinoff_prover]
#[verifier::rlimit(50)]
pub proof fn table_carries_the_command(command: u8, lba: u64, count: u16, data: u64, dbc: u32)
    ensures
        ({
            let t = command_table(command, lba, count, data, dbc);
            &&& t.len() == 144
            &&& t[0] == 0x27 && t[1] == 0x80 && t[7] == 0x40
            &&& t[2] == command
            &&& t[4] + 0x100 * t[5] + 0x1_0000 * t[6] + 0x100_0000 * t[8] + 0x1_0000_0000 * t[9]
                + 0x100_0000_0000 * t[10] == lba % 0x1_0000_0000_0000
            &&& t[12] + 0x100 * t[13] == count
            &&& bytes::u32_at(t, 128) + 0x1_0000_0000 * bytes::u32_at(t, 132) == data
            &&& bytes::u32_at(t, 136) == dbc
        }),
{
    let t = command_table(command, lba, count, data, dbc);
    six_bytes(lba as int);
    assert(t.len() == 144);
    assert(forall|k: int| 0 <= k < 128 ==> t[k] == fis(command, lba, count)[k]);
    let z = bytes::zero_bytes(144);
    let lo = (data % 0x1_0000_0000) as u32;
    let hi = (data / 0x1_0000_0000) as u32;
    bytes::put32_then_read(z, 128, lo);
    bytes::put32_then_read(z, 132, hi);
    bytes::put32_then_read(z, 136, dbc);
    assert(forall|k: int| 128 <= k < 132 ==> t[k] == bytes::put32(z, 128, lo)[k]);
    assert(forall|k: int| 132 <= k < 136 ==> t[k] == bytes::put32(z, 132, hi)[k]);
    assert(forall|k: int| 136 <= k < 140 ==> t[k] == bytes::put32(z, 136, dbc)[k]);
}

/// What the controller reads out of a command header: the length of the
/// command, the direction, one region, and the address of the table.
pub proof fn header_carries_the_direction(write: bool, ct: u64)
    ensures
        ({
            let h = command_header(write, ct);
            let w = bytes::u32_at(h, 0);
            &&& h.len() == 32
            &&& w & 0x1F == 5
            &&& (w & 0x40 != 0) == write
            &&& w >> 16 == 1
            &&& bytes::u32_at(h, 8) + 0x1_0000_0000 * bytes::u32_at(h, 12) == ct
        }),
{
    let h = command_header(write, ct);
    let z = bytes::zero_bytes(32);
    let w: u32 = if write {
        0x1_0045
    } else {
        0x1_0005
    };
    let lo = (ct % 0x1_0000_0000) as u32;
    let hi = (ct / 0x1_0000_0000) as u32;
    bytes::put32_then_read(z, 0, w);
    bytes::put32_then_read(z, 8, lo);
    bytes::put32_then_read(z, 12, hi);
    assert(forall|k: int| 0 <= k < 4 ==> h[k] == bytes::put32(z, 0, w)[k]);
    assert(forall|k: int| 8 <= k < 12 ==> h[k] == bytes::put32(z, 8, lo)[k]);
    assert(forall|k: int| 12 <= k < 16 ==> h[k] == bytes::put32(z, 12, hi)[k]);
    assert(0x1_0045u32 & 0x1F == 5 && 0x1_0045u32 & 0x40 != 0 && 0x1_0045u32 >> 16 == 1)
        by (bit_vector);
    assert(0x1_0005u32 & 0x1F == 5 && 0x1_0005u32 & 0x40 == 0 && 0x1_0005u32 >> 16 == 1)
        by (bit_vector);
}

// ---------- the registers of a port ----------

/// A port is stopped by clearing the bits of its two engines, and started by
/// setting them and the power, the receiver before the commands; no other bit
/// changes. The controller is enabled by its own bit.
pub proof fn engines_are_switched(b: Bring, v: u32)
    requires
        b.port < 4,
        b.step == Step::Stop(v) || (exists|d: Dma| b.step == Step::PowerOn(d, v)) || (exists|d: Dma|
            b.step == Step::Start(d, v)) || b.step == Step::Enable(v),
    ensures
        b.access() is Write,
        ({
            let off = b.access()->Write_0;
            let w = b.access()->Write_1;
            &&& b.step == Step::Stop(v) ==> off == 0x118 + 0x80 * b.port && w & 0x11 == 0 && w | 0x11
                == v | 0x11
            &&& b.step is PowerOn ==> off == 0x118 + 0x80 * b.port && w & 0x16 == 0x16 && w | 0x16 == v
                | 0x16 && w & 1 == v & 1
            &&& b.step is Start ==> off == 0x118 + 0x80 * b.port && w & 0x17 == 0x17 && w | 0x17 == v
                | 0x17
            &&& b.step == Step::Enable(v) ==> off == 4 && w & 0x8000_0000 != 0 && w | 0x8000_0000 == v
                | 0x8000_0000
        }),
{
    assert((v & 0xFFFF_FFEE) & 0x11 == 0 && (v & 0xFFFF_FFEE) | 0x11 == v | 0x11 && (v | 0x16) & 0x16
        == 0x16 && (v | 0x16) | 0x16 == v | 0x16 && (v | 0x16) & 1 == v & 1 && (v | 0x17) & 0x17 == 0x17
        && (v | 0x17) | 0x17 == v | 0x17 && (v | 0x8000_0000) & 0x8000_0000 != 0 && (v | 0x8000_0000)
        | 0x8000_0000 == v | 0x8000_0000) by (bit_vector);
}

/// A port gets its memory: the two halves of the addresses of its command list
/// and of its receive area go to its first four registers, and its status and
/// its errors are cleared.
pub proof fn ports_get_their_memory(p: u32, d: Dma)
    requires
        p < 4,
    ensures
        ({
            let at = 0x100 + 0x80 * p;
            let w = |k: u8| program_write(p, d, k);
            &&& w(0).0 == at && w(1).0 == at + 4 && w(0).1 + 0x1_0000_0000 * w(1).1 == d.clb
            &&& w(2).0 == at + 8 && w(3).0 == at + 12 && w(2).1 + 0x1_0000_0000 * w(3).1 == d.fb
            &&& w(4) == ((at + 0x10) as u64, 0xFFFF_FFFFu32)
            &&& w(5) == ((at + 0x14) as u64, 0u32)
            &&& w(6) == ((at + 0x30) as u64, 0xFFFF_FFFFu32)
        }),
{
}

/// All of these are written, one after the other, before the port is started;
/// then its link and its signature are read, and only then is it identified. It
/// is the same memory all along.
#[verifier::spinoff_prover]
pub proof fn memory_comes_before_the_start(s: Bring, o: Outcome, now: u64)
    requires
        s.wf(),
        s.port < 4,
        s.after(o, now).step != s.step,
    ensures
        s.after(o, now).step matches Step::Program(d, n) ==> (n == 0 && o == Outcome::Blocks(Some(d)))
            || (n > 0 && s.step == Step::Program(d, (n - 1) as u8) && o == Outcome::Written),
        s.after(o, now).step matches Step::StartRead(d) ==> (s.step matches Step::Program(e, n) && e == d
            && n >= 6) && o == Outcome::Written,
        s.after(o, now).step matches Step::Start(d, v) ==> s.step == Step::PowerOn(d, v),
        s.after(o, now).step matches Step::LinkWait(d) ==> (s.step matches Step::Start(e, _) && e == d),
        s.after(o, now).step matches Step::LinkCheck(d) ==> s.step == Step::LinkWait(d),
        s.after(o, now).step matches Step::Signature(d) ==> s.step == Step::LinkCheck(d),
        s.after(o, now).step matches Step::Identify(d) ==> s.step == Step::Signature(d),
{
    at_port_is_next(s, (s.port + 1) as u32, now);
    if let Outcome::Value(v) = o {
        let np = v % 32 + 1;
        let c: u32 = if np < 4 {
            np as u32
        } else {
            4
        };
        at_port_is_next(Bring { count: c, ..s }, 0, now);
    }
}

// ---------- time ----------

/// A wait lasts 40 ticks: it starts when its step is entered, and a step that
/// waits is left once that time is over, whatever is read.
pub proof fn waits_come_to_an_end(b: Bring, v: u32, now: u64)
    requires
        b.step == Step::ResetWait || b.step == Step::StopWait || b.step is LinkWait,
    ensures
        now >= b.deadline ==> b.after(Outcome::Value(v), now).step != b.step,
        b.after(Outcome::Value(v), now).step == b.step ==> b.after(Outcome::Value(v), now) == b,
        b.after(Outcome::Value(v), now).step != b.step ==> b.after(Outcome::Value(v), now).deadline
            == (if now + 40 > u64::MAX {
            u64::MAX as int
        } else {
            now + 40
        }),
{
}

/// The same goes for a command: one whose port stays busy, or that does not
/// finish, is given up and fails.
pub proof fn commands_come_to_an_end(c: Issue, v: u32, now: u64)
    ensures
        now >= c.deadline && c.step == IssueStep::Idle && v & 0x80 != 0 ==> c.after(
            Outcome::Value(v),
            now,
        ).step == IssueStep::Done(false),
        now >= c.deadline && c.step == IssueStep::IdleSlots && v != 0 ==> c.after(
            Outcome::Value(v),
            now,
        ).step == IssueStep::Done(false),
        now >= c.deadline && c.step == IssueStep::Running && v & 1 != 0 ==> c.after(
            Outcome::Value(v),
            now,
        ).step == IssueStep::Done(false),
        c.after(Outcome::Written, now).step == IssueStep::Running && c.step != IssueStep::Running
            ==> c.after(Outcome::Written, now).deadline == (if now + 40 > u64::MAX {
            u64::MAX as int
        } else {
            now + 40
        }),
{
    assert((v / 0x80 % 2 == 1 <==> v & 0x80 != 0) && (v % 2 == 0 <==> v & 1 == 0)) by (bit_vector);
}

} // verus!
