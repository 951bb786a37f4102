//! What the steps on one table keep: where the rows of a table come from
//! after a sweep, a scan or an eviction.

use vstd::prelude::*;
use crate::binding::{
    admit_test, exact_test, is_live, lemma_oldest_exists, live_rows, live_test, off_port_test,
    oldest, port_free, qualify_test, refreshed, spec_inbound_scan, spec_outbound_scan, trimmed,
    without_port, Binding, Reuse,
};
use crate::search::{first_where, last_where, lemma_first_where, lemma_last_where};

verus! {

/// The two bindings differ in their time of last use at most.
pub open spec fn same_binding(a: Binding, b: Binding) -> bool {
    &&& a.internal_addr == b.internal_addr
    &&& a.internal_port == b.internal_port
    &&& a.external_port == b.external_port
    &&& a.remote_addr == b.remote_addr
    &&& a.remote_port == b.remote_port
}

/// The row stood in the table `t` and has since been refreshed at `now` or
/// left alone.
pub open spec fn descends(r: Binding, t: Seq<Binding>, now: i64) -> bool {
    exists|r0: Binding|
        #![trigger t.contains(r0)]
        {
            &&& t.contains(r0)
            &&& same_binding(r, r0)
            &&& r.last_used_time == r0.last_used_time || r.last_used_time == now
        }
}

/// Every row of `after` descends from a row of `before`.
pub open spec fn thinned(after: Seq<Binding>, before: Seq<Binding>, now: i64) -> bool {
    forall|r: Binding| #[trigger] after.contains(r) ==> descends(r, before, now)
}

/// The live rows of a table are its rows that are live.
pub proof fn lemma_live_rows_contains(t: Seq<Binding>, now: i64, timeout: i64, r: Binding)
    ensures
        live_rows(t, now, timeout).contains(r) <==> t.contains(r) && is_live(r, now, timeout),
{
    let p = live_test(now, timeout);
    if t.filter(p).contains(r) {
        t.lemma_filter_contains_rev(p, r);
        let i = choose|i: int| 0 <= i < t.filter(p).len() && t.filter(p)[i] == r;
        t.lemma_filter_pred(p, i);
    }
    if t.contains(r) && is_live(r, now, timeout) {
        let i = choose|i: int| 0 <= i < t.len() && t[i] == r;
        t.lemma_filter_contains(p, i);
    }
}

/// The rows of a table off a port are its rows that are not on the port.
pub proof fn lemma_without_port_contains(t: Seq<Binding>, port: u16, r: Binding)
    ensures
        without_port(t, port).contains(r) <==> t.contains(r) && r.external_port != port,
{
    let p = off_port_test(port);
    if t.filter(p).contains(r) {
        t.lemma_filter_contains_rev(p, r);
        let i = choose|i: int| 0 <= i < t.filter(p).len() && t.filter(p)[i] == r;
        t.lemma_filter_pred(p, i);
    }
    if t.contains(r) && r.external_port != port {
        let i = choose|i: int| 0 <= i < t.len() && t[i] == r;
        t.lemma_filter_contains(p, i);
    }
}

/// Making room adds no row, and takes none from a table that is not full.
pub proof fn lemma_trimmed_contains(t: Seq<Binding>, max_len: usize, r: Binding)
    ensures
        trimmed(t, max_len).contains(r) ==> t.contains(r),
        t.len() < max_len || t.len() == 0 ==> trimmed(t, max_len) == t,
{
    if t.len() > 0 && t.len() >= max_len {
        lemma_oldest_exists(t);
        let k = oldest(t);
        let after = t.remove(k);
        if after.contains(r) {
            let i = choose|i: int| 0 <= i < after.len() && after[i] == r;
            if i < k {
                assert(t[i] == r);
            } else {
                assert(t[i + 1] == r);
            }
        }
    }
}

/// After an inbound packet every row of the table descends from a row that
/// was there before.
pub proof fn lemma_inbound_scan_thinned(
    t: Seq<Binding>,
    src_addr: u32,
    src_port: u16,
    dst_port: u16,
    bypass: bool,
    now: i64,
    timeout: i64,
    flags: u32,
)
    ensures
        thinned(
            spec_inbound_scan(t, src_addr, src_port, dst_port, bypass, now, timeout, flags).0,
            t,
            now,
        ),
{
    let live = live_rows(t, now, timeout);
    let after = spec_inbound_scan(t, src_addr, src_port, dst_port, bypass, now, timeout, flags).0;
    lemma_first_where(live, admit_test(src_addr, src_port, dst_port, bypass, flags));
    assert forall|r: Binding| #[trigger] after.contains(r) implies descends(r, t, now) by {
        let i = choose|i: int| 0 <= i < after.len() && after[i] == r;
        match first_where(live, admit_test(src_addr, src_port, dst_port, bypass, flags)) {
            Some(k) => {
                assert(live.contains(live[i]));
                lemma_live_rows_contains(t, now, timeout, live[i]);
                assert(t.contains(live[i]));
            },
            None => {
                lemma_without_port_contains(live, dst_port, r);
                assert(live.contains(r));
                lemma_live_rows_contains(t, now, timeout, r);
                assert(t.contains(r));
            },
        }
    }
}

/// After the search of an outbound packet every row of the table descends
/// from a row that was there before.
pub proof fn lemma_outbound_scan_thinned(
    t: Seq<Binding>,
    src_addr: u32,
    src_port: u16,
    dst_addr: u32,
    dst_port: u16,
    now: i64,
    timeout: i64,
    flags: u32,
    max_len: usize,
)
    ensures
        thinned(
            spec_outbound_scan(
                t,
                src_addr,
                src_port,
                dst_addr,
                dst_port,
                now,
                timeout,
                flags,
                max_len,
            ).0,
            t,
            now,
        ),
{
    let live = live_rows(t, now, timeout);
    let after = spec_outbound_scan(
        t,
        src_addr,
        src_port,
        dst_addr,
        dst_port,
        now,
        timeout,
        flags,
        max_len,
    ).0;
    lemma_first_where(live, exact_test(src_addr, src_port, dst_addr, dst_port));
    assert forall|r: Binding| #[trigger] after.contains(r) implies descends(r, t, now) by {
        let i = choose|i: int| 0 <= i < after.len() && after[i] == r;
        match first_where(live, exact_test(src_addr, src_port, dst_addr, dst_port)) {
            Some(k) => {
                assert(live.contains(live[i]));
                lemma_live_rows_contains(t, now, timeout, live[i]);
                assert(t.contains(live[i]));
            },
            None => {
                lemma_trimmed_contains(live, max_len, r);
                assert(live.contains(r));
                lemma_live_rows_contains(t, now, timeout, r);
                assert(t.contains(r));
            },
        }
    }
}

/// What the search of an outbound packet offers is the port of a live row
/// of the table: an exact row for `Exact`, one that qualifies for
/// `Preferred`. `Nothing` means that no live row qualifies.
pub proof fn lemma_outbound_scan_offer(
    t: Seq<Binding>,
    src_addr: u32,
    src_port: u16,
    dst_addr: u32,
    dst_port: u16,
    now: i64,
    timeout: i64,
    flags: u32,
    max_len: usize,
)
    ensures
        match spec_outbound_scan(
            t,
            src_addr,
            src_port,
            dst_addr,
            dst_port,
            now,
            timeout,
            flags,
            max_len,
        ).1 {
            Reuse::Exact(port) => exists|r: Binding|
                #![trigger t.contains(r)]
                t.contains(r) && is_live(r, now, timeout) && r.external_port == port
                    && crate::binding::is_exact(r, src_addr, src_port, dst_addr, dst_port),
            Reuse::Preferred(port) => exists|r: Binding|
                #![trigger t.contains(r)]
                t.contains(r) && is_live(r, now, timeout) && r.external_port == port
                    && crate::binding::qualifies(r, src_addr, src_port, dst_addr, dst_port, flags),
            Reuse::Nothing => forall|r: Binding|
                #![trigger t.contains(r)]
                t.contains(r) && is_live(r, now, timeout) ==> !crate::binding::qualifies(
                    r,
                    src_addr,
                    src_port,
                    dst_addr,
                    dst_port,
                    flags,
                ),
        },
{
    let live = live_rows(t, now, timeout);
    let exact = exact_test(src_addr, src_port, dst_addr, dst_port);
    let qualify = qualify_test(src_addr, src_port, dst_addr, dst_port, flags);
    lemma_first_where(live, exact);
    lemma_last_where(live, qualify);
    match first_where(live, exact) {
        Some(k) => {
            assert(live.contains(live[k]));
            lemma_live_rows_contains(t, now, timeout, live[k]);
        },
        None => {
            match last_where(live, qualify) {
                Some(k) => {
                    assert(live.contains(live[k]));
                    lemma_live_rows_contains(t, now, timeout, live[k]);
                },
                None => {
                    assert forall|r: Binding|
                        #![trigger t.contains(r)]
                        t.contains(r) && is_live(r, now, timeout) implies !crate::binding::qualifies(
                        r,
                        src_addr,
                        src_port,
                        dst_addr,
                        dst_port,
                        flags,
                    ) by {
                        lemma_live_rows_contains(t, now, timeout, r);
                        let i = choose|i: int| 0 <= i < live.len() && live[i] == r;
                        assert(!qualify(live[i]));
                    }
                },
            }
        },
    }
}

/// The test "is on `port`".
pub open spec fn on_port_test(port: u16) -> spec_fn(Binding) -> bool {
    |b: Binding| b.external_port == port
}

/// The rows of a table that are on `port`, in order.
pub open spec fn on_port(t: Seq<Binding>, port: u16) -> Seq<Binding> {
    t.filter(on_port_test(port))
}

/// No port has more than one row in the table.
pub open spec fn ports_unique(t: Seq<Binding>) -> bool {
    forall|port: u16| (#[trigger] on_port(t, port)).len() <= 1
}

/// A filter of one row holds that row if it passes and nothing if not.
proof fn lemma_filter_one(x: Binding, p: spec_fn(Binding) -> bool)
    ensures
        seq![x].filter(p) == if p(x) {
            seq![x]
        } else {
            Seq::<Binding>::empty()
        },
{
    let none = Seq::<Binding>::empty();
    assert(none.filter(p) =~= none) by {
        reveal(Seq::filter);
    }
    none.lemma_filter_push(x, p);
    assert(none.push(x) =~= seq![x]);
}

/// A table filtered in three parts: the rows before `k`, row `k`, and the
/// rows after it.
proof fn lemma_filter_split(t: Seq<Binding>, k: int, p: spec_fn(Binding) -> bool)
    requires
        0 <= k < t.len(),
    ensures
        t.filter(p) == t.take(k).filter(p) + seq![t[k]].filter(p) + t.skip(k + 1).filter(p),
{
    assert(t =~= t.take(k) + seq![t[k]] + t.skip(k + 1));
    Seq::filter_distributes_over_add(t.take(k) + seq![t[k]], t.skip(k + 1), p);
    Seq::filter_distributes_over_add(t.take(k), seq![t[k]], p);
}

/// Filtering first by another test leaves no more rows that pass `b`.
pub proof fn lemma_filter_filter_len(
    t: Seq<Binding>,
    a: spec_fn(Binding) -> bool,
    b: spec_fn(Binding) -> bool,
)
    ensures
        t.filter(a).filter(b).len() <= t.filter(b).len(),
    decreases t.len(),
{
    if t.len() == 0 {
        assert(t.filter(a) =~= t) by {
            reveal(Seq::filter);
        }
    } else {
        let s = t.drop_last();
        let x = t.last();
        assert(t =~= s.push(x));
        s.lemma_filter_push(x, a);
        s.lemma_filter_push(x, b);
        lemma_filter_filter_len(s, a, b);
        if a(x) {
            s.filter(a).lemma_filter_push(x, b);
        }
    }
}

/// A row replaced by one on the same port leaves each port with as many
/// rows as before.
pub proof fn lemma_on_port_update(t: Seq<Binding>, k: int, r: Binding, port: u16)
    requires
        0 <= k < t.len(),
        r.external_port == t[k].external_port,
    ensures
        on_port(t.update(k, r), port).len() == on_port(t, port).len(),
{
    let p = on_port_test(port);
    let u = t.update(k, r);
    lemma_filter_split(t, k, p);
    lemma_filter_split(u, k, p);
    assert(u.take(k) =~= t.take(k));
    assert(u.skip(k + 1) =~= t.skip(k + 1));
    lemma_filter_one(t[k], p);
    lemma_filter_one(r, p);
}

/// A row removed leaves no port with more rows than before.
pub proof fn lemma_on_port_remove(t: Seq<Binding>, k: int, port: u16)
    requires
        0 <= k < t.len(),
    ensures
        on_port(t.remove(k), port).len() <= on_port(t, port).len(),
{
    let p = on_port_test(port);
    lemma_filter_split(t, k, p);
    assert(t.remove(k) =~= t.take(k) + t.skip(k + 1));
    Seq::filter_distributes_over_add(t.take(k), t.skip(k + 1), p);
}

/// A port that is free has no row.
pub proof fn lemma_on_port_free(t: Seq<Binding>, port: u16)
    ensures
        port_free(t, port) <==> on_port(t, port).len() == 0,
{
    let p = on_port_test(port);
    let rows = t.filter(p);
    if port_free(t, port) && rows.len() > 0 {
        t.lemma_filter_pred(p, 0);
        assert(rows.contains(rows[0]));
        t.lemma_filter_contains_rev(p, rows[0]);
        let i = choose|i: int| 0 <= i < t.len() && t[i] == rows[0];
        assert(t[i].external_port != port);
    }
    if rows.len() == 0 {
        assert forall|k: int| 0 <= k < t.len() implies (#[trigger] t[k]).external_port != port by {
            if t[k].external_port == port {
                t.lemma_filter_contains(p, k);
            }
        }
    }
}

/// Two rows on one port make the port's rows two at least.
pub proof fn lemma_on_port_two(t: Seq<Binding>, i: int, j: int, port: u16)
    requires
        0 <= i < j < t.len(),
        t[i].external_port == port,
        t[j].external_port == port,
    ensures
        on_port(t, port).len() >= 2,
{
    let p = on_port_test(port);
    lemma_filter_split(t, i, p);
    lemma_filter_one(t[i], p);
    let rest = t.skip(i + 1);
    assert(rest[j - i - 1] == t[j]);
    rest.lemma_filter_contains(p, j - i - 1);
}

/// A new row adds one to the rows of its port and nothing to the others.
pub proof fn lemma_on_port_push(t: Seq<Binding>, b: Binding, port: u16)
    ensures
        on_port(t.push(b), port).len() == on_port(t, port).len() + if b.external_port == port {
            1int
        } else {
            0int
        },
{
    t.lemma_filter_push(b, on_port_test(port));
}

/// After a sweep no port has more rows than before.
pub proof fn lemma_on_port_live(t: Seq<Binding>, now: i64, timeout: i64, port: u16)
    ensures
        on_port(live_rows(t, now, timeout), port).len() <= on_port(t, port).len(),
{
    lemma_filter_filter_len(t, live_test(now, timeout), on_port_test(port));
}

/// After a port was cleared it has no row, and no other port has more rows
/// than before.
pub proof fn lemma_on_port_cleared(t: Seq<Binding>, cleared: u16, port: u16)
    ensures
        on_port(without_port(t, cleared), port).len() <= on_port(t, port).len(),
        on_port(without_port(t, cleared), cleared).len() == 0,
{
    lemma_filter_filter_len(t, off_port_test(cleared), on_port_test(port));
    let rest = without_port(t, cleared);
    assert forall|k: int| 0 <= k < rest.len() implies (#[trigger] rest[k]).external_port
        != cleared by {
        t.lemma_filter_pred(off_port_test(cleared), k);
    }
    lemma_on_port_free(rest, cleared);
}

/// An inbound packet leaves no port of the table with more rows than
/// before.
pub proof fn lemma_inbound_scan_on_port(
    t: Seq<Binding>,
    src_addr: u32,
    src_port: u16,
    dst_port: u16,
    bypass: bool,
    now: i64,
    timeout: i64,
    flags: u32,
    port: u16,
)
    ensures
        on_port(
            spec_inbound_scan(t, src_addr, src_port, dst_port, bypass, now, timeout, flags).0,
            port,
        ).len() <= on_port(t, port).len(),
{
    let live = live_rows(t, now, timeout);
    lemma_on_port_live(t, now, timeout, port);
    lemma_first_where(live, admit_test(src_addr, src_port, dst_port, bypass, flags));
    match first_where(live, admit_test(src_addr, src_port, dst_port, bypass, flags)) {
        Some(k) => {
            lemma_on_port_update(live, k, refreshed(live[k], now), port);
        },
        None => {
            lemma_on_port_cleared(live, dst_port, port);
        },
    }
}

/// The search of an outbound packet leaves no port of the table with more
/// rows than before.
pub proof fn lemma_outbound_scan_on_port(
    t: Seq<Binding>,
    src_addr: u32,
    src_port: u16,
    dst_addr: u32,
    dst_port: u16,
    now: i64,
    timeout: i64,
    flags: u32,
    max_len: usize,
    port: u16,
)
    ensures
        on_port(
            spec_outbound_scan(
                t,
                src_addr,
                src_port,
                dst_addr,
                dst_port,
                now,
                timeout,
                flags,
                max_len,
            ).0,
            port,
        ).len() <= on_port(t, port).len(),
{
    let live = live_rows(t, now, timeout);
    lemma_on_port_live(t, now, timeout, port);
    lemma_first_where(live, exact_test(src_addr, src_port, dst_addr, dst_port));
    match first_where(live, exact_test(src_addr, src_port, dst_addr, dst_port)) {
        Some(k) => {
            lemma_on_port_update(live, k, refreshed(live[k], now), port);
        },
        None => {
            if live.len() > 0 && live.len() >= max_len {
                lemma_oldest_exists(live);
                lemma_on_port_remove(live, oldest(live), port);
            }
        },
    }
}

/// The rows that the search of an outbound packet leaves in a table without
/// an exact binding are rows of the table that are live.
pub proof fn lemma_outbound_scan_rows(
    t: Seq<Binding>,
    src_addr: u32,
    src_port: u16,
    dst_addr: u32,
    dst_port: u16,
    now: i64,
    timeout: i64,
    flags: u32,
    max_len: usize,
    r: Binding,
)
    requires
        !(spec_outbound_scan(
            t,
            src_addr,
            src_port,
            dst_addr,
            dst_port,
            now,
            timeout,
            flags,
            max_len,
        ).1 is Exact),
        spec_outbound_scan(
            t,
            src_addr,
            src_port,
            dst_addr,
            dst_port,
            now,
            timeout,
            flags,
            max_len,
        ).0.contains(r),
    ensures
        t.contains(r),
        is_live(r, now, timeout),
{
    let live = live_rows(t, now, timeout);
    lemma_trimmed_contains(live, max_len, r);
    lemma_live_rows_contains(t, now, timeout, r);
}

/// An exact binding that the search of an outbound packet finds stands in
/// the table after the search, on the port offered, and with `now` as its
/// time of last use unless outbound traffic does not refresh.
pub proof fn lemma_outbound_scan_exact_row(
    t: Seq<Binding>,
    src_addr: u32,
    src_port: u16,
    dst_addr: u32,
    dst_port: u16,
    now: i64,
    timeout: i64,
    flags: u32,
    max_len: usize,
)
    ensures
        spec_outbound_scan(
            t,
            src_addr,
            src_port,
            dst_addr,
            dst_port,
            now,
            timeout,
            flags,
            max_len,
        ).1 matches Reuse::Exact(port) ==> exists|r: Binding|
            #![trigger crate::binding::is_exact(r, src_addr, src_port, dst_addr, dst_port)]
            {
                &&& spec_outbound_scan(
                    t,
                    src_addr,
                    src_port,
                    dst_addr,
                    dst_port,
                    now,
                    timeout,
                    flags,
                    max_len,
                ).0.contains(r)
                &&& crate::binding::is_exact(r, src_addr, src_port, dst_addr, dst_port)
                &&& r.external_port == port
                &&& !crate::flags::is_set(flags, crate::flags::OUTBOUND_REFRESH_BEHAVIOR_FALSE)
                    ==> r.last_used_time == now
            },
{
    let live = live_rows(t, now, timeout);
    let exact = exact_test(src_addr, src_port, dst_addr, dst_port);
    let after = spec_outbound_scan(
        t,
        src_addr,
        src_port,
        dst_addr,
        dst_port,
        now,
        timeout,
        flags,
        max_len,
    ).0;
    lemma_first_where(live, exact);
    match first_where(live, exact) {
        Some(k) => {
            assert(exact(live[k]));
            assert(after[k] == after[k]);
            assert(after.contains(after[k]));
            assert(crate::binding::is_exact(after[k], src_addr, src_port, dst_addr, dst_port));
        },
        None => {},
    }
}

/// A sweep at a time when no row is live leaves nothing.
pub proof fn lemma_live_rows_none(t: Seq<Binding>, now: i64, timeout: i64)
    requires
        forall|r: Binding| #[trigger] t.contains(r) ==> !is_live(r, now, timeout),
    ensures
        live_rows(t, now, timeout).len() == 0,
{
    let live = live_rows(t, now, timeout);
    if live.len() > 0 {
        assert(live.contains(live[0]));
        lemma_live_rows_contains(t, now, timeout, live[0]);
    }
}

} // verus!
