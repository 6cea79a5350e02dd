//! What the enumeration of PCI functions finds, and how often.
use vstd::prelude::*;
use vstd::set_lib::*;

use crate::pci;
use crate::pci::{ConfigSpace, Level, PciAddress, Phase, Progress};

verus! {

/// There is a function at the address.
pub open spec fn there(config: ConfigSpace, a: PciAddress) -> bool {
    pci::info_at(config, a).vendor_id != 0xFFFF
}

/// The device has functions beside its first one.
pub open spec fn multifunction(config: ConfigSpace, bus: u8, device: u8) -> bool {
    let first = PciAddress { bus, device, function: 0 };
    there(config, first) && pci::info_at(config, first).multifunction
}

/// The function is found where its bus is enumerated.
pub open spec fn listed(config: ConfigSpace, a: PciAddress) -> bool {
    &&& a.device < 32
    &&& a.function < 8
    &&& there(config, a)
    &&& a.function > 0 ==> multifunction(config, a.bus, a.device)
}

/// The bus right behind a bridge.
pub open spec fn bus_behind(config: ConfigSpace, a: PciAddress) -> u8 {
    pci::secondary_of(config(a, 0x18))
}

/// The function is a bridge, and the bus is right behind it.
pub open spec fn leads_to(config: ConfigSpace, a: PciAddress, bus: u8) -> bool {
    &&& listed(config, a)
    &&& pci::is_bridge(pci::info_at(config, a))
    &&& bus_behind(config, a) == bus
}

/// One bus is behind another, `k` bridges deep.
pub open spec fn reaches(config: ConfigSpace, from: u8, bus: u8, k: nat) -> bool
    decreases k,
{
    if k == 0 {
        from == bus
    } else {
        exists|p: PciAddress| #[trigger]
            leads_to(config, p, bus) && reaches(config, from, p.bus, (k - 1) as nat)
    }
}

/// One bus is another, or behind it.
pub open spec fn reached(config: ConfigSpace, from: u8, bus: u8) -> bool {
    exists|k: nat| #[trigger] reaches(config, from, bus, k)
}

/// The buses that are reached from one form a tree: none is behind two bridges,
/// and the first is behind none of them.
pub open spec fn is_tree(config: ConfigSpace, root: u8) -> bool {
    &&& forall|p: PciAddress, q: PciAddress, bus: u8| #[trigger]
        leads_to(config, p, bus) && #[trigger] leads_to(config, q, bus) && reached(
            config,
            root,
            p.bus,
        ) && reached(config, root, q.bus) ==> p == q
    &&& forall|p: PciAddress| #[trigger]
        leads_to(config, p, root) ==> !reached(config, root, p.bus)
}

/// What is behind a bus behind another is behind that one.
proof fn lemma_reaches_further(config: ConfigSpace, a: u8, b: u8, c: u8, k: nat, j: nat)
    requires
        reaches(config, a, b, k),
        reaches(config, b, c, j),
    ensures
        reaches(config, a, c, k + j),
    decreases j,
{
    if j > 0 {
        let p = choose|p: PciAddress| #[trigger]
            leads_to(config, p, c) && reaches(config, b, p.bus, (j - 1) as nat);
        lemma_reaches_further(config, a, b, p.bus, k, (j - 1) as nat);
        assert((k + j - 1) as nat == k + (j - 1) as nat);
    }
}

/// A bridge leads one step further.
proof fn lemma_one_step(config: ConfigSpace, p: PciAddress, bus: u8)
    requires
        leads_to(config, p, bus),
    ensures
        reaches(config, p.bus, bus, 1),
{
    assert(reaches(config, p.bus, p.bus, 0));
}

/// In a tree no bus is behind itself.
proof fn lemma_no_circle(config: ConfigSpace, root: u8, b: u8, k: nat, m: nat)
    requires
        is_tree(config, root),
        reaches(config, root, b, k),
        m > 0,
    ensures
        !reaches(config, b, b, m),
    decreases k,
{
    if reaches(config, b, b, m) {
        let q = choose|q: PciAddress| #[trigger]
            leads_to(config, q, b) && reaches(config, b, q.bus, (m - 1) as nat);
        lemma_reaches_further(config, root, b, q.bus, k, (m - 1) as nat);
        if k > 0 {
            let p = choose|p: PciAddress| #[trigger]
                leads_to(config, p, b) && reaches(config, root, p.bus, (k - 1) as nat);
            assert(p == q);
            lemma_one_step(config, p, b);
            lemma_reaches_further(config, p.bus, b, p.bus, 1, (m - 1) as nat);
            lemma_no_circle(config, root, p.bus, (k - 1) as nat, m);
        }
    }
}

/// In a tree, of two buses that one bus is behind, one is behind the other.
proof fn lemma_one_line(
    config: ConfigSpace,
    root: u8,
    a: u8,
    b: u8,
    x: u8,
    ka: nat,
    kb: nat,
)
    requires
        is_tree(config, root),
        reached(config, root, a),
        reached(config, root, b),
        reaches(config, a, x, ka),
        reaches(config, b, x, kb),
        ka <= kb,
    ensures
        reaches(config, b, a, (kb - ka) as nat),
    decreases ka,
{
    if ka > 0 {
        let p = choose|p: PciAddress| #[trigger]
            leads_to(config, p, x) && reaches(config, a, p.bus, (ka - 1) as nat);
        let q = choose|q: PciAddress| #[trigger]
            leads_to(config, q, x) && reaches(config, b, q.bus, (kb - 1) as nat);
        let ra = choose|k: nat| #[trigger] reaches(config, root, a, k);
        let rb = choose|k: nat| #[trigger] reaches(config, root, b, k);
        lemma_reaches_further(config, root, a, p.bus, ra, (ka - 1) as nat);
        lemma_reaches_further(config, root, b, q.bus, rb, (kb - 1) as nat);
        assert(p == q);
        lemma_one_line(config, root, a, b, p.bus, (ka - 1) as nat, (kb - 1) as nat);
    }
}

/// In a tree, what is behind one bridge of a bus is not behind another.
proof fn lemma_apart(
    config: ConfigSpace,
    root: u8,
    p: PciAddress,
    q: PciAddress,
    x: u8,
    kp: nat,
    kq: nat,
)
    requires
        is_tree(config, root),
        p != q,
        p.bus == q.bus,
        reached(config, root, p.bus),
        leads_to(config, p, bus_behind(config, p)),
        leads_to(config, q, bus_behind(config, q)),
        kp <= kq,
    ensures
        !(reaches(config, bus_behind(config, p), x, kp) && reaches(
            config,
            bus_behind(config, q),
            x,
            kq,
        )),
{
    let r = choose|k: nat| #[trigger] reaches(config, root, p.bus, k);
    let cp = bus_behind(config, p);
    let cq = bus_behind(config, q);
    lemma_one_step(config, p, cp);
    lemma_one_step(config, q, cq);
    lemma_reaches_further(config, root, p.bus, cp, r, 1);
    lemma_reaches_further(config, root, q.bus, cq, r, 1);
    let m = (kq - kp) as nat;
    if reaches(config, cp, x, kp) && reaches(config, cq, x, kq) {
        lemma_one_line(config, root, cp, cq, x, kp, kq);
    }
    if m > 0 && reaches(config, cq, cp, m) {
        let u = choose|u: PciAddress| #[trigger]
            leads_to(config, u, cp) && reaches(config, cq, u.bus, (m - 1) as nat);
        lemma_reaches_further(config, root, cq, u.bus, r + 1, (m - 1) as nat);
        assert(u == p);
        lemma_reaches_further(config, q.bus, cq, p.bus, 1, (m - 1) as nat);
        lemma_no_circle(config, root, p.bus, r, m);
    }
}

/// The function stands at or after a place among the functions of its bus.
spec fn at_or_after(a: PciAddress, device: u8, function: u8) -> bool {
    a.device > device || (a.device == device && a.function >= function)
}

/// The address lies on a bus behind a bridge.
spec fn below(config: ConfigSpace, y: PciAddress, p: PciAddress) -> bool {
    &&& leads_to(config, p, bus_behind(config, p))
    &&& reached(config, bus_behind(config, p), y.bus)
}

/// Where a function that is found from a place on can be.
spec fn found_from(
    config: ConfigSpace,
    y: PciAddress,
    bus: u8,
    device: u8,
    function: u8,
) -> bool {
    ||| y.bus == bus && at_or_after(y, device, function)
    ||| exists|p: PciAddress|
        p.bus == bus && at_or_after(p, device, function) && #[trigger] below(config, y, p)
}

/// The enumeration can come to a place: the device has more than one function,
/// where the place is not its first.
spec fn can_start(config: ConfigSpace, bus: u8, device: u8, function: u8) -> bool {
    function > 0 ==> multifunction(config, bus, device)
}

/// The part of a scan after its first function.
spec fn later(
    config: ConfigSpace,
    bus: u8,
    device: u8,
    function: u8,
    last: u8,
    depth: nat,
) -> Seq<PciAddress> {
    if function >= 7 || (function == 0 && !multifunction(config, bus, device)) {
        if device >= last || device >= 31 {
            Seq::empty()
        } else {
            pci::scan(config, bus, (device + 1) as u8, 0, last, depth)
        }
    } else {
        pci::scan(config, bus, device, (function + 1) as u8, last, depth)
    }
}

/// The part of a scan behind its first function.
spec fn inner(
    config: ConfigSpace,
    bus: u8,
    device: u8,
    function: u8,
    depth: nat,
) -> Seq<PciAddress> {
    let a = PciAddress { bus, device, function };
    if there(config, a) && pci::is_bridge(pci::info_at(config, a)) && depth > 0 {
        pci::scan(config, bus_behind(config, a), 0, 0, 31, (depth - 1) as nat)
    } else {
        Seq::empty()
    }
}

/// A scan is its first function, what is behind it, and the rest.
proof fn lemma_scan_parts(
    config: ConfigSpace,
    bus: u8,
    device: u8,
    function: u8,
    last: u8,
    depth: nat,
)
    ensures
        pci::scan(config, bus, device, function, last, depth) == (if there(
            config,
            PciAddress { bus, device, function },
        ) {
            seq![PciAddress { bus, device, function }] + inner(
                config,
                bus,
                device,
                function,
                depth,
            ) + later(config, bus, device, function, last, depth)
        } else {
            later(config, bus, device, function, last, depth)
        }),
{
}

/// What a scan finds is there, on the bus or behind one of its bridges.
proof fn lemma_member(
    config: ConfigSpace,
    bus: u8,
    device: u8,
    function: u8,
    last: u8,
    depth: nat,
    y: PciAddress,
)
    requires
        device <= last < 32,
        function < 8,
        can_start(config, bus, device, function),
        pci::scan(config, bus, device, function, last, depth).contains(y),
    ensures
        listed(config, y),
        found_from(config, y, bus, device, function),
    decreases depth, 32 - device, 8 - function, 1int,
{
    let a = PciAddress { bus, device, function };
    let behind = inner(config, bus, device, function, depth);
    let rest = later(config, bus, device, function, last, depth);
    lemma_scan_parts(config, bus, device, function, last, depth);
    if there(config, a) && y == a {
    } else if there(config, a) && behind.contains(y) {
        lemma_inner(config, bus, device, function, depth, y);
        assert(below(config, y, a));
    } else {
        assert(rest.contains(y)) by {
            let all = pci::scan(config, bus, device, function, last, depth);
            let i = choose|i: int| 0 <= i < all.len() && all[i] == y;
            if there(config, a) {
                if i == 0 {
                    assert(all[0] == a);
                } else if i < 1 + behind.len() {
                    assert(behind[i - 1] == y);
                } else {
                    assert(rest[i - 1 - behind.len()] == y);
                }
            }
        }
        lemma_member_later(config, bus, device, function, last, depth, y);
    }
}

/// The same of the part after the first function.
proof fn lemma_member_later(
    config: ConfigSpace,
    bus: u8,
    device: u8,
    function: u8,
    last: u8,
    depth: nat,
    y: PciAddress,
)
    requires
        device <= last < 32,
        function < 8,
        can_start(config, bus, device, function),
        later(config, bus, device, function, last, depth).contains(y),
    ensures
        listed(config, y),
        found_from(config, y, bus, device, (function + 1) as u8),
    decreases depth, 32 - device, 8 - function, 0int,
{
    let next = (function + 1) as u8;
    if function >= 7 || (function == 0 && !multifunction(config, bus, device)) {
        let d = (device + 1) as u8;
        lemma_member(config, bus, d, 0, last, depth, y);
        if !(y.bus == bus && at_or_after(y, d, 0)) {
            let p = choose|p: PciAddress|
                p.bus == bus && at_or_after(p, d, 0) && #[trigger] below(config, y, p);
            assert(at_or_after(p, device, next));
        }
    } else {
        lemma_member(config, bus, device, next, last, depth, y);
    }
}

/// What is found behind a function is below it.
proof fn lemma_inner(
    config: ConfigSpace,
    bus: u8,
    device: u8,
    function: u8,
    depth: nat,
    y: PciAddress,
)
    requires
        device < 32,
        function < 8,
        can_start(config, bus, device, function),
        inner(config, bus, device, function, depth).contains(y),
    ensures
        listed(config, y),
        below(config, y, PciAddress { bus, device, function }),
    decreases depth, 32 - device, 8 - function, 0int,
{
    let a = PciAddress { bus, device, function };
    let c = bus_behind(config, a);
    assert(leads_to(config, a, c));
    lemma_member(config, c, 0, 0, 31, (depth - 1) as nat, y);
    if y.bus == c {
        assert(reaches(config, c, y.bus, 0));
    } else {
        let p = choose|p: PciAddress|
            p.bus == c && at_or_after(p, 0, 0) && #[trigger] below(config, y, p);
        let d = bus_behind(config, p);
        let k = choose|k: nat| #[trigger] reaches(config, d, y.bus, k);
        lemma_one_step(config, p, d);
        lemma_reaches_further(config, c, d, y.bus, 1, k);
    }
}

/// In a tree a scan finds nothing twice.
proof fn lemma_once(
    config: ConfigSpace,
    root: u8,
    bus: u8,
    device: u8,
    function: u8,
    last: u8,
    depth: nat,
)
    requires
        is_tree(config, root),
        reached(config, root, bus),
        device <= last < 32,
        function < 8,
        can_start(config, bus, device, function),
    ensures
        pci::scan(config, bus, device, function, last, depth).no_duplicates(),
    decreases depth, 32 - device, 8 - function,
{
    let a = PciAddress { bus, device, function };
    let behind = inner(config, bus, device, function, depth);
    let rest = later(config, bus, device, function, last, depth);
    let all = pci::scan(config, bus, device, function, last, depth);
    let r = choose|k: nat| #[trigger] reaches(config, root, bus, k);
    lemma_scan_parts(config, bus, device, function, last, depth);
    if function >= 7 || (function == 0 && !multifunction(config, bus, device)) {
        if device < last {
            lemma_once(config, root, bus, (device + 1) as u8, 0, last, depth);
        }
    } else {
        lemma_once(config, root, bus, device, (function + 1) as u8, last, depth);
    }
    if there(config, a) {
        if behind.len() > 0 {
            let c = bus_behind(config, a);
            assert(leads_to(config, a, c));
            lemma_one_step(config, a, c);
            lemma_reaches_further(config, root, bus, c, r, 1);
            lemma_once(config, root, c, 0, 0, 31, (depth - 1) as nat);
        }
        assert forall|i: int, j: int| 0 <= i < j < all.len() implies #[trigger] all[i]
            != #[trigger] all[j] by {
            if all[i] == all[j] {
                let n = behind.len() as int;
                if j >= 1 + n {
                    assert(rest[j - 1 - n] == all[j]);
                    assert(rest.contains(all[j]));
                    if i == 0 {
                        lemma_first_once(config, root, bus, device, function, last, depth);
                    } else if i < 1 + n {
                        assert(behind[i - 1] == all[i]);
                        assert(behind.contains(all[i]));
                        lemma_parts_apart(
                            config,
                            root,
                            bus,
                            device,
                            function,
                            last,
                            depth,
                            all[i],
                        );
                    } else {
                        assert(rest[i - 1 - n] == all[i]);
                    }
                } else {
                    assert(behind[j - 1] == all[j]);
                    assert(behind.contains(all[j]));
                    if i == 0 {
                        lemma_first_once(config, root, bus, device, function, last, depth);
                    } else {
                        assert(behind[i - 1] == all[i]);
                    }
                }
            }
        }
    }
}

/// A function is not found again behind itself, nor after itself.
proof fn lemma_first_once(
    config: ConfigSpace,
    root: u8,
    bus: u8,
    device: u8,
    function: u8,
    last: u8,
    depth: nat,
)
    requires
        is_tree(config, root),
        reached(config, root, bus),
        device <= last < 32,
        function < 8,
        can_start(config, bus, device, function),
        there(config, PciAddress { bus, device, function }),
    ensures
        !inner(config, bus, device, function, depth).contains(
            PciAddress { bus, device, function },
        ),
        !later(config, bus, device, function, last, depth).contains(
            PciAddress { bus, device, function },
        ),
{
    let a = PciAddress { bus, device, function };
    if inner(config, bus, device, function, depth).contains(a) {
        lemma_inner(config, bus, device, function, depth, a);
        lemma_not_below(config, root, a, a);
    }
    if later(config, bus, device, function, last, depth).contains(a) {
        lemma_member_later(config, bus, device, function, last, depth, a);
        let p = choose|p: PciAddress|
            p.bus == bus && at_or_after(p, device, (function + 1) as u8) && #[trigger] below(
                config,
                a,
                p,
            );
        lemma_not_below(config, root, p, a);
    }
}

/// In a tree nothing on the bus of a bridge is below the bridge.
proof fn lemma_not_below(config: ConfigSpace, root: u8, p: PciAddress, y: PciAddress)
    requires
        is_tree(config, root),
        reached(config, root, p.bus),
        y.bus == p.bus,
    ensures
        !below(config, y, p),
{
    if below(config, y, p) {
        let c = bus_behind(config, p);
        let r = choose|k: nat| #[trigger] reaches(config, root, p.bus, k);
        let k = choose|k: nat| #[trigger] reaches(config, c, y.bus, k);
        lemma_one_step(config, p, c);
        lemma_reaches_further(config, p.bus, c, y.bus, 1, k);
        lemma_no_circle(config, root, p.bus, r, 1 + k);
    }
}

/// In a tree, what is found behind a function is not found after it.
proof fn lemma_parts_apart(
    config: ConfigSpace,
    root: u8,
    bus: u8,
    device: u8,
    function: u8,
    last: u8,
    depth: nat,
    y: PciAddress,
)
    requires
        is_tree(config, root),
        reached(config, root, bus),
        device <= last < 32,
        function < 8,
        can_start(config, bus, device, function),
        inner(config, bus, device, function, depth).contains(y),
    ensures
        !later(config, bus, device, function, last, depth).contains(y),
{
    let a = PciAddress { bus, device, function };
    lemma_inner(config, bus, device, function, depth, y);
    if y.bus == bus {
        lemma_not_below(config, root, a, y);
    } else if later(config, bus, device, function, last, depth).contains(y) {
        lemma_member_later(config, bus, device, function, last, depth, y);
        let p = choose|p: PciAddress|
            p.bus == bus && at_or_after(p, device, (function + 1) as u8) && #[trigger] below(
                config,
                y,
                p,
            );
        let ka = choose|k: nat| #[trigger] reaches(config, bus_behind(config, a), y.bus, k);
        let kp = choose|k: nat| #[trigger] reaches(config, bus_behind(config, p), y.bus, k);
        if ka <= kp {
            lemma_apart(config, root, a, p, y.bus, ka, kp);
        } else {
            lemma_apart(config, root, p, a, y.bus, kp, ka);
        }
    }
}

/// Where the bridges nest deeper than `depth`, there is a bus that deep.
proof fn lemma_deep_bus(
    config: ConfigSpace,
    bus: u8,
    device: u8,
    function: u8,
    last: u8,
    depth: nat,
) -> (x: u8)
    requires
        device <= last < 32,
        function < 8,
        can_start(config, bus, device, function),
        !pci::nested(config, bus, device, function, last, depth),
    ensures
        reaches(config, bus, x, depth + 1),
    decreases depth, 32 - device, 8 - function,
{
    let a = PciAddress { bus, device, function };
    let c = bus_behind(config, a);
    let bridge = there(config, a) && pci::is_bridge(pci::info_at(config, a));
    if bridge && (depth == 0 || !pci::nested(config, c, 0, 0, 31, (depth - 1) as nat)) {
        assert(leads_to(config, a, c));
        lemma_one_step(config, a, c);
        if depth == 0 {
            c
        } else {
            let x = lemma_deep_bus(config, c, 0, 0, 31, (depth - 1) as nat);
            lemma_reaches_further(config, bus, c, x, 1, depth);
            x
        }
    } else if function >= 7 || (function == 0 && !multifunction(config, bus, device)) {
        lemma_deep_bus(config, bus, (device + 1) as u8, 0, last, depth)
    } else {
        lemma_deep_bus(config, bus, device, (function + 1) as u8, last, depth)
    }
}

/// The buses on the way from one bus to another.
proof fn lemma_way(config: ConfigSpace, root: u8, x: u8, k: nat) -> (way: Seq<u8>)
    requires
        reaches(config, root, x, k),
    ensures
        way.len() == k + 1,
        way[0] == root,
        way[k as int] == x,
        forall|i: int, j: int|
            0 <= i <= j <= k ==> reaches(
                config,
                #[trigger] way[i],
                #[trigger] way[j],
                (j - i) as nat,
            ),
    decreases k,
{
    if k == 0 {
        seq![x]
    } else {
        let p = choose|p: PciAddress| #[trigger]
            leads_to(config, p, x) && reaches(config, root, p.bus, (k - 1) as nat);
        let before = lemma_way(config, root, p.bus, (k - 1) as nat);
        let way = before.push(x);
        assert forall|i: int, j: int| 0 <= i <= j <= k implies reaches(
            config,
            #[trigger] way[i],
            #[trigger] way[j],
            (j - i) as nat,
        ) by {
            if j < k {
                assert(way[i] == before[i] && way[j] == before[j]);
            } else if i < k {
                assert(way[i] == before[i]);
                assert(reaches(config, before[i], before[k - 1], (k - 1 - i) as nat));
                assert(leads_to(config, p, x));
            }
        }
        way
    }
}

/// In a tree no bus is deeper than there are other buses.
proof fn lemma_depth_bound(config: ConfigSpace, root: u8, x: u8, k: nat)
    requires
        is_tree(config, root),
        reaches(config, root, x, k),
    ensures
        k < 256,
{
    let way = lemma_way(config, root, x, k);
    let numbers = Seq::new(way.len(), |i: int| way[i] as int);
    assert forall|i: int, j: int| 0 <= i < j < numbers.len() implies #[trigger] numbers[i]
        != #[trigger] numbers[j] by {
        if way[i] == way[j] {
            assert(reaches(config, way[0], way[i], i as nat));
            lemma_no_circle(config, root, way[i], i as nat, (j - i) as nat);
        }
    }
    assert(numbers.no_duplicates());
    numbers.unique_seq_to_set();
    lemma_int_range(0, 256);
    assert(numbers.to_set().subset_of(set_int_range(0, 256))) by {
        assert forall|n: int| numbers.to_set().contains(n) implies #[trigger] set_int_range(
            0,
            256,
        ).contains(n) by {
            let i = choose|i: int| 0 <= i < numbers.len() && numbers[i] == n;
            assert(n == way[i] as int);
        }
    }
    lemma_len_subset(numbers.to_set(), set_int_range(0, 256));
}

/// Whatever an enumeration finds is there, and has numbers of a device and a
/// function.
pub proof fn law_found_functions_are_there(
    config: ConfigSpace,
    bus: u8,
    depth: nat,
    a: PciAddress,
)
    requires
        pci::scan(config, bus, 0, 0, 31, depth).contains(a),
    ensures
        a.device < 32,
        a.function < 8,
        pci::info_at(config, a).vendor_id != 0xFFFF,
        a.bus == bus || exists|p: PciAddress|
            p.bus == bus && #[trigger] leads_to(config, p, bus_behind(config, p)) && reached(
                config,
                bus_behind(config, p),
                a.bus,
            ),
{
    lemma_member(config, bus, 0, 0, 31, depth, a);
    if a.bus != bus {
        let p = choose|p: PciAddress|
            p.bus == bus && at_or_after(p, 0, 0) && #[trigger] below(config, a, p);
        assert(leads_to(config, p, bus_behind(config, p)));
    }
}

/// From a place on, a scan finds the functions of the bus that stand there,
/// and all that is behind them.
proof fn lemma_found(
    config: ConfigSpace,
    bus: u8,
    device: u8,
    function: u8,
    last: u8,
    depth: nat,
    a: PciAddress,
)
    requires
        device <= last < 32,
        function < 8,
        pci::nested(config, bus, device, function, last, depth),
        listed(config, a),
        a.bus == bus,
        at_or_after(a, device, function),
        a.device <= last,
    ensures
        pci::scan(config, bus, device, function, last, depth).contains(a),
        leads_to(config, a, bus_behind(config, a)) ==> {
            &&& depth > 0
            &&& pci::nested(config, bus_behind(config, a), 0, 0, 31, (depth - 1) as nat)
            &&& forall|y: PciAddress| #[trigger]
                pci::scan(config, bus_behind(config, a), 0, 0, 31, (depth - 1) as nat).contains(y)
                    ==> pci::scan(config, bus, device, function, last, depth).contains(y)
        },
    decreases 32 - device, 8 - function,
{
    let first = PciAddress { bus, device, function };
    let behind = inner(config, bus, device, function, depth);
    let rest = later(config, bus, device, function, last, depth);
    let all = pci::scan(config, bus, device, function, last, depth);
    lemma_scan_parts(config, bus, device, function, last, depth);
    if a == first {
        assert(all[0] == a);
        assert forall|y: PciAddress| #[trigger] behind.contains(y) implies all.contains(y) by {
            let i = choose|i: int| 0 <= i < behind.len() && behind[i] == y;
            assert(all[i + 1] == y);
        }
    } else {
        if function >= 7 || (function == 0 && !multifunction(config, bus, device)) {
            lemma_found(config, bus, (device + 1) as u8, 0, last, depth, a);
        } else {
            lemma_found(config, bus, device, (function + 1) as u8, last, depth, a);
        }
        assert forall|y: PciAddress| #[trigger] rest.contains(y) implies all.contains(y) by {
            let i = choose|i: int| 0 <= i < rest.len() && rest[i] == y;
            if there(config, first) {
                assert(all[1 + behind.len() + i] == y);
            } else {
                assert(all[i] == y);
            }
        }
    }
}

/// Every function on the bus, or on a bus behind it, is found, if the bridges do
/// not lead in a circle.
pub proof fn law_every_function_is_found(
    config: ConfigSpace,
    bus: u8,
    depth: nat,
    a: PciAddress,
    k: nat,
)
    requires
        pci::nested(config, bus, 0, 0, 31, depth),
        reaches(config, bus, a.bus, k),
        listed(config, a),
    ensures
        pci::scan(config, bus, 0, 0, 31, depth).contains(a),
    decreases k,
{
    if k == 0 {
        lemma_found(config, bus, 0, 0, 31, depth, a);
    } else {
        let way = lemma_way(config, bus, a.bus, k);
        let c = way[1];
        assert(reaches(config, way[0], way[1], 1));
        let p = choose|p: PciAddress| #[trigger]
            leads_to(config, p, c) && reaches(config, bus, p.bus, 0);
        assert(reaches(config, way[1], way[k as int], (k - 1) as nat));
        lemma_found(config, bus, 0, 0, 31, depth, p);
        law_every_function_is_found(config, c, (depth - 1) as nat, a, (k - 1) as nat);
    }
}

/// In a tree of buses an enumeration finds no function twice.
pub proof fn law_found_once(config: ConfigSpace, bus: u8, depth: nat)
    requires
        is_tree(config, bus),
    ensures
        pci::scan(config, bus, 0, 0, 31, depth).no_duplicates(),
{
    assert(reaches(config, bus, bus, 0));
    lemma_once(config, bus, bus, 0, 0, 31, depth);
}

/// In a tree of buses an enumeration comes to an end: no bridge is nested
/// deeper than there are buses.
pub proof fn law_tree_is_enumerated(config: ConfigSpace, bus: u8)
    requires
        is_tree(config, bus),
    ensures
        pci::nested(config, bus, 0, 0, 31, 255),
        exists|n: nat| #[trigger]
            pci::run(
                config,
                Progress { levels: seq![Level::start(bus, 0, 31)], found: Seq::empty() },
                n,
            ) == (Progress {
                levels: Seq::<Level>::empty(),
                found: pci::scan(config, bus, 0, 0, 31, 255),
            }),
{
    if !pci::nested(config, bus, 0, 0, 31, 255) {
        let x = lemma_deep_bus(config, bus, 0, 0, 31, 255);
        lemma_depth_bound(config, bus, x, 256);
    }
    pci::law_enum_bus_finds_all(config, bus, 255);
}

/// The functions of a device and those behind them are found before those of
/// the next device.
proof fn lemma_device_first(
    config: ConfigSpace,
    bus: u8,
    device: u8,
    function: u8,
    last: u8,
    depth: nat,
)
    requires
        device < last < 32,
        function < 8,
    ensures
        pci::scan(config, bus, device, function, last, depth) == pci::scan(
            config,
            bus,
            device,
            function,
            device,
            depth,
        ) + pci::scan(config, bus, (device + 1) as u8, 0, last, depth),
    decreases 8 - function,
{
    let others = pci::scan(config, bus, (device + 1) as u8, 0, last, depth);
    lemma_scan_parts(config, bus, device, function, last, depth);
    lemma_scan_parts(config, bus, device, function, device, depth);
    if !(function >= 7 || (function == 0 && !multifunction(config, bus, device))) {
        lemma_device_first(config, bus, device, (function + 1) as u8, last, depth);
    }
    assert(later(config, bus, device, function, last, depth) =~= later(
        config,
        bus,
        device,
        function,
        device,
        depth,
    ) + others);
    assert(pci::scan(config, bus, device, function, last, depth) =~= pci::scan(
        config,
        bus,
        device,
        function,
        device,
        depth,
    ) + others);
}

/// What enumerating the devices of a bus from one on finds, one after another.
pub open spec fn device_by_device(config: ConfigSpace, bus: u8, device: u8, depth: nat) -> Seq<
    PciAddress,
>
    decreases 32 - device,
{
    if device >= 32 {
        Seq::empty()
    } else {
        pci::scan(config, bus, device, 0, device, depth) + device_by_device(
            config,
            bus,
            (device + 1) as u8,
            depth,
        )
    }
}

proof fn lemma_device_by_device(config: ConfigSpace, bus: u8, device: u8, depth: nat)
    requires
        device < 32,
    ensures
        pci::scan(config, bus, device, 0, 31, depth) == device_by_device(
            config,
            bus,
            device,
            depth,
        ),
    decreases 32 - device,
{
    if device < 31 {
        lemma_device_first(config, bus, device, 0, 31, depth);
        lemma_device_by_device(config, bus, (device + 1) as u8, depth);
    } else {
        assert(device_by_device(config, bus, 32, depth) =~= Seq::empty());
        assert(pci::scan(config, bus, 31, 0, 31, depth) + Seq::<PciAddress>::empty()
            =~= pci::scan(config, bus, 31, 0, 31, depth));
    }
}

/// Enumerating a bus finds what enumerating its 32 devices one after another
/// finds, in the same order.
pub proof fn law_bus_is_its_devices(config: ConfigSpace, bus: u8, depth: nat)
    ensures
        pci::scan(config, bus, 0, 0, 31, depth) == device_by_device(config, bus, 0, depth),
{
    lemma_device_by_device(config, bus, 0, depth);
}

/// What the bits of the registers at 0x00, 0x08 and 0x0C mean.
pub proof fn law_registers_are_read(
    address: PciAddress,
    vendor_device: u32,
    class_info: u32,
    header: u32,
)
    ensures
        ({
            let info = pci::info_of(address, vendor_device, class_info, header);
            &&& info.address == address
            &&& info.vendor_id == vendor_device & 0xFFFF
            &&& info.device_id == vendor_device >> 16
            &&& info.class_code == class_info >> 24
            &&& info.subclass == (class_info >> 16) & 0xFF
            &&& info.prog_if == (class_info >> 8) & 0xFF
            &&& info.header_type == (header >> 16) & 0x7F
            &&& info.multifunction == (header & 0x80_0000 != 0)
        }),
        pci::vendor_of(vendor_device) == vendor_device & 0xFFFF,
{
    let v = vendor_device;
    let c = class_info;
    let h = header;
    assert(v & 0xFFFF == v % 0x1_0000 && v >> 16 == v / 0x1_0000 && c >> 24 == c / 0x100_0000 && (c
        >> 16) & 0xFF == (c / 0x1_0000) % 0x100 && (c >> 8) & 0xFF == (c / 0x100) % 0x100 && (h
        >> 16) & 0x7F == ((h / 0x1_0000) % 0x100) % 0x80 && (h & 0x80_0000 != 0) == ((h
        / 0x1_0000) % 0x100 >= 0x80)) by (bit_vector);
}

/// Whether the device has more than one function says nothing about the layout
/// of the header: two headers that differ in bit 23 only have the same type, and
/// the function is a bridge by both or by neither.
pub proof fn law_multifunction_keeps_header_type(
    address: PciAddress,
    vendor_device: u32,
    class_info: u32,
    header: u32,
    other: u32,
)
    requires
        header ^ other == 0x80_0000,
    ensures
        ({
            let a = pci::info_of(address, vendor_device, class_info, header);
            let b = pci::info_of(address, vendor_device, class_info, other);
            &&& a.header_type == b.header_type
            &&& a.multifunction == !b.multifunction
            &&& pci::is_bridge(a) == pci::is_bridge(b)
        }),
{
    law_registers_are_read(address, vendor_device, class_info, header);
    law_registers_are_read(address, vendor_device, class_info, other);
    assert((header >> 16) & 0x7F == (other >> 16) & 0x7F && (header & 0x80_0000 != 0) == (other
        & 0x80_0000 == 0)) by (bit_vector)
        requires
            header ^ other == 0x80_0000,
    ;
}

/// A function is a bridge by its class, its subclass and the type of its header,
/// and the bus behind it is in the second byte of the register at 0x18.
pub proof fn law_bridges_are_known(
    address: PciAddress,
    vendor_device: u32,
    class_info: u32,
    header: u32,
    value: u32,
)
    ensures
        pci::is_bridge(pci::info_of(address, vendor_device, class_info, header)) <==> class_info
            >> 24 == 0x06 && ((class_info >> 16) & 0xFF == 0x04 || (class_info >> 16) & 0xFF
            == 0x09) && (header >> 16) & 0x7F == 1,
        pci::secondary_of(value) == (value >> 8) & 0xFF,
{
    law_registers_are_read(address, vendor_device, class_info, header);
    assert((value >> 8) & 0xFF == (value / 0x100) % 0x100) by (bit_vector);
}

/// Every function of a bus is found: that of number 0 of every device, and the
/// others where bit 23 of its header says that there are others.
pub proof fn law_functions_of_a_bus_are_found(
    config: ConfigSpace,
    bus: u8,
    depth: nat,
    device: u8,
    function: u8,
)
    requires
        pci::nested(config, bus, 0, 0, 31, depth),
        device < 32,
        function < 8,
        config(PciAddress { bus, device, function }, 0x00) & 0xFFFF != 0xFFFF,
        function > 0 ==> config(PciAddress { bus, device, function: 0 }, 0x00) & 0xFFFF != 0xFFFF
            && config(PciAddress { bus, device, function: 0 }, 0x0C) & 0x80_0000 != 0,
    ensures
        pci::scan(config, bus, 0, 0, 31, depth).contains(PciAddress { bus, device, function }),
{
    let a = PciAddress { bus, device, function };
    let first = PciAddress { bus, device, function: 0 };
    law_registers_are_read(a, config(a, 0x00), config(a, 0x08), config(a, 0x0C));
    law_registers_are_read(first, config(first, 0x00), config(first, 0x08), config(first, 0x0C));
    assert(listed(config, a));
    lemma_found(config, bus, 0, 0, 31, depth, a);
}

/// What is found on the bus behind a bridge is found along with the bridge.
pub proof fn law_functions_behind_a_bridge_are_found(
    config: ConfigSpace,
    bus: u8,
    depth: nat,
    device: u8,
    function: u8,
    a: PciAddress,
)
    requires
        pci::nested(config, bus, 0, 0, 31, depth),
        device < 32,
        function < 8,
        config(PciAddress { bus, device, function }, 0x00) & 0xFFFF != 0xFFFF,
        function > 0 ==> config(PciAddress { bus, device, function: 0 }, 0x00) & 0xFFFF != 0xFFFF
            && config(PciAddress { bus, device, function: 0 }, 0x0C) & 0x80_0000 != 0,
        ({
            let class_info = config(PciAddress { bus, device, function }, 0x08);
            class_info >> 24 == 0x06 && ((class_info >> 16) & 0xFF == 0x04 || (class_info >> 16)
                & 0xFF == 0x09)
        }),
        (config(PciAddress { bus, device, function }, 0x0C) >> 16) & 0x7F == 1,
        depth == 0 || pci::scan(
            config,
            ((config(PciAddress { bus, device, function }, 0x18) >> 8) & 0xFF) as u8,
            0,
            0,
            31,
            (depth - 1) as nat,
        ).contains(a),
    ensures
        depth > 0,
        pci::scan(config, bus, 0, 0, 31, depth).contains(a),
{
    let p = PciAddress { bus, device, function };
    let first = PciAddress { bus, device, function: 0 };
    law_registers_are_read(p, config(p, 0x00), config(p, 0x08), config(p, 0x0C));
    law_registers_are_read(first, config(first, 0x00), config(first, 0x08), config(first, 0x0C));
    law_bridges_are_known(
        p,
        config(p, 0x00),
        config(p, 0x08),
        config(p, 0x0C),
        config(p, 0x18),
    );
    assert(listed(config, p));
    assert(leads_to(config, p, bus_behind(config, p)));
    lemma_found(config, bus, 0, 0, 31, depth, p);
}

/// The fields of the value for the address port: bit 31 is set, and bus, device,
/// function and register stand in bits 16 to 23, 11 to 15, 8 to 10 and 2 to 7.
pub proof fn law_io_address_fields(a: PciAddress, offset: usize)
    requires
        a.device < 32,
        a.function < 8,
    ensures
        ({
            let v = a.spec_io_address(offset);
            &&& v >> 24 == 0x80
            &&& (v >> 16) & 0xFF == a.bus
            &&& (v >> 11) & 0x1F == a.device
            &&& (v >> 8) & 0x7 == a.function
            &&& v & 0xFF == (offset as u32) & 0xFC
        }),
{
    let b = a.bus as u32;
    let d = a.device as u32;
    let f = a.function as u32;
    let o = offset as u32;
    let v = a.spec_io_address(offset);
    assert(v >> 24 == 0x80 && (v >> 16) & 0xFF == b && (v >> 11) & 0x1F == d && (v >> 8) & 0x7 == f
        && v & 0xFF == o & 0xFC) by (bit_vector)
        requires
            b < 256,
            d < 32,
            f < 8,
            v == 0x8000_0000u32 | (b << 16u32) | (d << 11u32) | (f << 8u32) | (o & 0xFCu32),
    ;
}

/// A function is reported once its three registers are read, with what they say,
/// and only then is it among those found.
pub proof fn law_functions_are_reported(s: Progress, value: u32)
    requires
        s.levels.len() > 0,
    ensures
        s.levels.last().phase matches Phase::Header { vendor_device, class_info } ==> {
            let info = s.report(value);
            let address = PciAddress {
                bus: s.levels.last().bus,
                device: s.levels.last().device,
                function: s.levels.last().function,
            };
            &&& info is Some
            &&& info.unwrap().address == address
            &&& info.unwrap().vendor_id == vendor_device & 0xFFFF
            &&& info.unwrap().device_id == vendor_device >> 16
            &&& info.unwrap().class_code == class_info >> 24
            &&& info.unwrap().subclass == (class_info >> 16) & 0xFF
            &&& info.unwrap().prog_if == (class_info >> 8) & 0xFF
            &&& info.unwrap().header_type == (value >> 16) & 0x7F
            &&& info.unwrap().multifunction == (value & 0x80_0000 != 0)
            &&& s.step(value).found == s.found.push(address)
        },
        !(s.levels.last().phase is Header) ==> s.report(value) is None && s.step(value).found
            == s.found,
{
    if let Phase::Header { vendor_device, class_info } = s.levels.last().phase {
        law_registers_are_read(s.levels.last().address(), vendor_device, class_info, value);
    }
}

/// The registers of a function are read in their order: vendor and device at
/// 0x00, class at 0x08, header type at 0x0C, and the bus behind a bridge at 0x18.
pub proof fn law_registers_are_asked_for(s: Progress)
    requires
        s.levels.len() > 0,
    ensures
        s.next_read().0.bus == s.levels.last().bus,
        s.next_read().0.device == s.levels.last().device,
        s.next_read().0.function == s.levels.last().function,
        s.next_read().1 == (match s.levels.last().phase {
            Phase::Vendor => 0x00usize,
            Phase::Class { .. } => 0x08,
            Phase::Header { .. } => 0x0C,
            Phase::Secondary { .. } => 0x18,
        }),
{
}

/// In memory the configuration space of a function takes 4 KiB, that of a device
/// 32 KiB and that of a bus 1 MiB, one after another from `mcfg` on.
pub proof fn law_mmio_addresses_are_in_order(
    a: PciAddress,
    offset_a: int,
    b: PciAddress,
    offset_b: int,
    mcfg: int,
)
    ensures
        a.spec_mmio_address(offset_a, mcfg) - b.spec_mmio_address(offset_b, mcfg) == (a.bus - b.bus)
            * 0x10_0000 + (a.device - b.device) * 0x8000 + (a.function - b.function) * 0x1000 + (
        offset_a - offset_b),
        a.bus == 0 && a.device == 0 && a.function == 0 ==> a.spec_mmio_address(offset_a, mcfg)
            == mcfg + offset_a,
{
}

/// What the functions are called by class, subclass and programming interface.
/// The interface matters for storage controllers only, and bridges are called so
/// whatever their subclass.
pub proof fn law_names(subclass: u8, prog_if: u8)
    ensures
        pci::name_of(0x01, 0x06, 0x01) == "AHCI storage controller"@,
        pci::name_of(0x01, 0x08, 0x02) == "NVMe storage device"@,
        pci::name_of(0x01, 0x01, prog_if) == "IDE storage controller"@,
        pci::name_of(0x02, 0x00, prog_if) == "Ethernet controller"@,
        pci::name_of(0x03, 0x00, prog_if) == "VGA-compatible device"@,
        pci::name_of(0x03, 0x80, prog_if) == "Other display device"@,
        pci::name_of(0x04, 0x03, prog_if) == "Audio device"@,
        pci::name_of(0x06, subclass, prog_if) == "Bridge device"@,
        pci::name_of(0x0C, 0x03, prog_if) == "USB Controller"@,
{
}

/// Every function that none of the names stands for is a PCI device.
pub proof fn law_other_functions_have_the_general_name(class: u8, subclass: u8, prog_if: u8)
    requires
        class == 0x01 ==> subclass != 0x01 && !(subclass == 0x06 && prog_if == 0x01) && !(subclass
            == 0x08 && prog_if == 0x02),
        class == 0x02 ==> subclass != 0x00,
        class == 0x03 ==> subclass != 0x00 && subclass != 0x80,
        class == 0x04 ==> subclass != 0x03,
        class != 0x06,
        class == 0x0C ==> subclass != 0x03,
    ensures
        pci::name_of(class, subclass, prog_if) == "PCI device"@,
{
}

} // verus!
