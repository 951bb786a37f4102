//! What the steps of the state machine do to the tables as a whole.

use vstd::prelude::*;
use crate::binding::{spec_outbound_scan, without_port, Binding, Reuse};
use crate::facts::{
    lemma_inbound_scan_thinned, lemma_outbound_scan_thinned, lemma_without_port_contains,
    same_binding, thinned,
};
use crate::flags::{is_set, NO_HAIRPINNING};
use crate::model::{new_binding, Lookup, Model, Pick};
use crate::router::DestType;

verus! {

impl Model {
    /// What the search of an outbound packet does to table `i` and finds in
    /// it.
    pub open spec fn scan(
        self,
        i: int,
        src_addr: u32,
        src_port: u16,
        dst_addr: u32,
        dst_port: u16,
        now: i64,
    ) -> (Seq<Binding>, Reuse) {
        spec_outbound_scan(
            self.tables[i],
            src_addr,
            src_port,
            dst_addr,
            dst_port,
            now,
            self.timeout,
            self.flags,
            self.max_table_len(),
        )
    }

    /// The outbound packet meets the conditions that stand before the search
    /// for a binding.
    pub open spec fn passes(self, src_addr: u32, dst_addr: u32) -> bool {
        &&& !self.is_internal(dst_addr)
        &&& !(is_set(self.flags, NO_HAIRPINNING) && self.owns(dst_addr))
        &&& self.registry.contains_key(src_addr)
    }

    /// The external endpoint of the binding that serves the outbound
    /// packet: that of the binding found, or `pick` where none is found.
    pub open spec fn exit(
        self,
        src_addr: u32,
        src_port: u16,
        dst_addr: u32,
        dst_port: u16,
        now: i64,
        pick: Pick,
    ) -> Pick {
        match self.lookup(src_addr, src_port, dst_addr, dst_port, now).1 {
            Lookup::Exact { index, port } => Pick { index, port, shared: true },
            Lookup::Preferred { index, port } => Pick { index, port, shared: true },
            Lookup::Fresh => pick,
        }
    }

    /// The state once the binding that serves the outbound packet stands in
    /// its table: after the search where an exact binding is found, and
    /// after a new binding was placed where none is.
    pub open spec fn installed(
        self,
        src_addr: u32,
        src_port: u16,
        dst_addr: u32,
        dst_port: u16,
        now: i64,
        pick: Pick,
    ) -> Model {
        let (searched, found) = self.lookup(src_addr, src_port, dst_addr, dst_port, now);
        let exit = self.exit(src_addr, src_port, dst_addr, dst_port, now, pick);
        if found is Exact {
            searched
        } else {
            searched.placed(
                exit,
                new_binding(src_addr, src_port, exit.port, dst_addr, dst_port, now),
            )
        }
    }

    /// The state differs from `before` in the rows of its tables at most, and
    /// every row descends from a row that stood in the same table before.
    pub open spec fn thinned_from(self, before: Model, now: i64) -> bool {
        &&& self.keeps(before)
        &&& forall|i: int|
            0 <= i < self.tables.len() ==> thinned(#[trigger] self.tables[i], before.tables[i], now)
    }

    /// Every two rows of the tables, each with the index of its table,
    /// stand in the relation `rel`.
    pub open spec fn all_pairs(self, rel: spec_fn(int, Binding, int, Binding) -> bool) -> bool {
        forall|i: int, a: Binding, j: int, b: Binding|
            #![trigger self.tables[i].contains(a), self.tables[j].contains(b)]
            0 <= i < self.tables.len() && 0 <= j < self.tables.len() && self.tables[i].contains(a)
                && self.tables[j].contains(b) ==> rel(i, a, j, b)
    }

    /// Every row of the tables satisfies `q`.
    pub open spec fn all_rows(self, q: spec_fn(Binding) -> bool) -> bool {
        forall|i: int, r: Binding|
            #![trigger self.tables[i].contains(r)]
            0 <= i < self.tables.len() && self.tables[i].contains(r) ==> q(r)
    }

    /// The tables from `from` up to `to` were searched, and none of them
    /// offered an exact binding.
    pub open spec fn searched_between(
        self,
        after: Model,
        from: int,
        to: int,
        src_addr: u32,
        src_port: u16,
        dst_addr: u32,
        dst_port: u16,
        now: i64,
    ) -> bool {
        forall|i: int|
            from <= i < to ==> {
                &&& (#[trigger] after.tables[i]) == self.scan(
                    i,
                    src_addr,
                    src_port,
                    dst_addr,
                    dst_port,
                    now,
                ).0
                &&& !(self.scan(i, src_addr, src_port, dst_addr, dst_port, now).1 is Exact)
            }
    }

    /// None of the tables from `from` up to `to` offers anything.
    pub open spec fn nothing_between(
        self,
        from: int,
        to: int,
        src_addr: u32,
        src_port: u16,
        dst_addr: u32,
        dst_port: u16,
        now: i64,
    ) -> bool {
        forall|i: int|
            from <= i < to ==> (#[trigger] self.scan(
                i,
                src_addr,
                src_port,
                dst_addr,
                dst_port,
                now,
            )).1 is Nothing
    }

    /// `after` and `found` are what a search from table `from` on, with
    /// `held` the offer of the tables before it, leaves and finds.
    ///
    /// The tables before `from` are as they were. An exact binding is found
    /// in the first table that offers one; the tables before it were
    /// searched and those after it are as they were. Otherwise every table
    /// was searched, and what is found is the offer of the last table that
    /// offers anything, or `held` where none does.
    pub open spec fn search_shape(
        self,
        after: Model,
        found: Lookup,
        from: int,
        held: Option<(usize, u16)>,
        src_addr: u32,
        src_port: u16,
        dst_addr: u32,
        dst_port: u16,
        now: i64,
    ) -> bool {
        let len = self.tables.len() as int;
        &&& after.keeps(self)
        &&& forall|i: int| 0 <= i < from && i < len ==> #[trigger] after.tables[i] == self.tables[i]
        &&& match found {
            Lookup::Exact { index, port } => {
                &&& from <= index < len
                &&& self.scan(index as int, src_addr, src_port, dst_addr, dst_port, now) == (
                    after.tables[index as int],
                    Reuse::Exact(port),
                )
                &&& self.searched_between(
                    after,
                    from,
                    index as int,
                    src_addr,
                    src_port,
                    dst_addr,
                    dst_port,
                    now,
                )
                &&& forall|i: int| index < i < len ==> #[trigger] after.tables[i] == self.tables[i]
            },
            Lookup::Preferred { index, port } => {
                &&& self.searched_between(
                    after,
                    from,
                    len,
                    src_addr,
                    src_port,
                    dst_addr,
                    dst_port,
                    now,
                )
                &&& {
                    ||| {
                        &&& from <= index < len
                        &&& self.scan(index as int, src_addr, src_port, dst_addr, dst_port, now).1
                            == Reuse::Preferred(port)
                        &&& self.nothing_between(
                            index + 1,
                            len,
                            src_addr,
                            src_port,
                            dst_addr,
                            dst_port,
                            now,
                        )
                    }
                    ||| {
                        &&& held == Some((index, port))
                        &&& self.nothing_between(
                            from,
                            len,
                            src_addr,
                            src_port,
                            dst_addr,
                            dst_port,
                            now,
                        )
                    }
                }
            },
            Lookup::Fresh => {
                &&& self.searched_between(
                    after,
                    from,
                    len,
                    src_addr,
                    src_port,
                    dst_addr,
                    dst_port,
                    now,
                )
                &&& self.nothing_between(from, len, src_addr, src_port, dst_addr, dst_port, now)
                &&& held is None
            },
        }
    }
}

/// A search has the shape that `search_shape` describes.
pub proof fn lemma_lookup_shape(
    m: Model,
    from: int,
    held: Option<(usize, u16)>,
    src_addr: u32,
    src_port: u16,
    dst_addr: u32,
    dst_port: u16,
    now: i64,
)
    requires
        0 <= from,
        m.tables.len() <= usize::MAX,
    ensures
        ({
            let (after, found) = m.lookup_from(
                from,
                held,
                src_addr,
                src_port,
                dst_addr,
                dst_port,
                now,
            );
            m.search_shape(after, found, from, held, src_addr, src_port, dst_addr, dst_port, now)
        }),
    decreases m.tables.len() - from,
{
    let (after, found) = m.lookup_from(from, held, src_addr, src_port, dst_addr, dst_port, now);
    let len = m.tables.len() as int;
    if from >= len {
        assert(m == m.with_tables(m.tables));
    } else {
        let (table, reuse) = m.scan(from, src_addr, src_port, dst_addr, dst_port, now);
        let next = m.with_tables(m.tables.update(from, table));
        assert forall|i: int| 0 <= i < len && i != from implies next.scan(
            i,
            src_addr,
            src_port,
            dst_addr,
            dst_port,
            now,
        ) == m.scan(i, src_addr, src_port, dst_addr, dst_port, now) by {}
        match reuse {
            Reuse::Exact(port) => {
                assert(after == next);
                assert(next.tables[from] == table);
            },
            Reuse::Preferred(port) => {
                let grasp = Some((from as usize, port));
                lemma_lookup_shape(
                    next,
                    from + 1,
                    grasp,
                    src_addr,
                    src_port,
                    dst_addr,
                    dst_port,
                    now,
                );
                assert(next.search_shape(
                    after,
                    found,
                    from + 1,
                    grasp,
                    src_addr,
                    src_port,
                    dst_addr,
                    dst_port,
                    now,
                ));
                assert(after.tables[from] == next.tables[from]);
                assert(after == m.with_tables(after.tables));
            },
            Reuse::Nothing => {
                lemma_lookup_shape(
                    next,
                    from + 1,
                    held,
                    src_addr,
                    src_port,
                    dst_addr,
                    dst_port,
                    now,
                );
                assert(next.search_shape(
                    after,
                    found,
                    from + 1,
                    held,
                    src_addr,
                    src_port,
                    dst_addr,
                    dst_port,
                    now,
                ));
                assert(after.tables[from] == next.tables[from]);
                assert(after == m.with_tables(after.tables));
            },
        }
    }
}

/// The relation does not look at the time of last use.
pub open spec fn timeless(rel: spec_fn(int, Binding, int, Binding) -> bool) -> bool {
    forall|i: int, a: Binding, j: int, b: Binding, a2: Binding, b2: Binding|
        #![trigger rel(i, a, j, b), same_binding(a2, a), same_binding(b2, b)]
        rel(i, a, j, b) && same_binding(a2, a) && same_binding(b2, b) ==> rel(i, a2, j, b2)
}

/// A relation between all rows that does not look at the time of last use
/// holds on in a state that was thinned.
pub proof fn lemma_pairs_thinned(
    after: Model,
    before: Model,
    now: i64,
    rel: spec_fn(int, Binding, int, Binding) -> bool,
)
    requires
        before.all_pairs(rel),
        timeless(rel),
        after.thinned_from(before, now),
    ensures
        after.all_pairs(rel),
{
    assert forall|i: int, a: Binding, j: int, b: Binding|
        #![trigger after.tables[i].contains(a), after.tables[j].contains(b)]
        0 <= i < after.tables.len() && 0 <= j < after.tables.len() && after.tables[i].contains(a)
            && after.tables[j].contains(b) implies rel(i, a, j, b) by {
        assert(thinned(after.tables[i], before.tables[i], now));
        assert(thinned(after.tables[j], before.tables[j], now));
        let a0 = choose|a0: Binding|
            #![trigger before.tables[i].contains(a0)]
            before.tables[i].contains(a0) && same_binding(a, a0);
        let b0 = choose|b0: Binding|
            #![trigger before.tables[j].contains(b0)]
            before.tables[j].contains(b0) && same_binding(b, b0);
        assert(rel(i, a0, j, b0));
        assert(same_binding(a, a0) && same_binding(b, b0));
    }
}

/// A packet from the outside thins the state.
pub proof fn lemma_inbound_thinned(
    m: Model,
    src_addr: u32,
    src_port: u16,
    dst_addr: u32,
    dst_port: u16,
    bypass: bool,
    now: i64,
)
    requires
        m.tables.len() == m.addresses.len(),
    ensures
        m.inbound(src_addr, src_port, dst_addr, dst_port, bypass, now).0.thinned_from(m, now),
{
    let after = m.inbound(src_addr, src_port, dst_addr, dst_port, bypass, now).0;
    match m.address_index(dst_addr) {
        Some(k) => {
            lemma_inbound_scan_thinned(
                m.tables[k],
                src_addr,
                src_port,
                dst_port,
                bypass,
                now,
                m.timeout,
                m.flags,
            );
            crate::search::lemma_first_where(m.addresses, crate::model::address_test(dst_addr));
            assert forall|i: int| 0 <= i < after.tables.len() implies thinned(
                #[trigger] after.tables[i],
                m.tables[i],
                now,
            ) by {
                if i != k {
                    assert(after.tables[i] == m.tables[i]);
                }
            }
        },
        None => {
            assert(m == m.with_tables(m.tables));
        },
    }
}

/// The search for a reusable binding thins the state.
pub proof fn lemma_lookup_thinned(
    m: Model,
    src_addr: u32,
    src_port: u16,
    dst_addr: u32,
    dst_port: u16,
    now: i64,
)
    requires
        m.tables.len() <= usize::MAX,
    ensures
        m.lookup(src_addr, src_port, dst_addr, dst_port, now).0.thinned_from(m, now),
{
    let (after, found) = m.lookup(src_addr, src_port, dst_addr, dst_port, now);
    lemma_lookup_shape(m, 0, None, src_addr, src_port, dst_addr, dst_port, now);
    assert forall|i: int| 0 <= i < after.tables.len() implies thinned(
        #[trigger] after.tables[i],
        m.tables[i],
        now,
    ) by {
        lemma_outbound_scan_thinned(
            m.tables[i],
            src_addr,
            src_port,
            dst_addr,
            dst_port,
            now,
            m.timeout,
            m.flags,
            m.max_table_len(),
        );
        if after.tables[i] != m.tables[i] {
            assert(after.tables[i] == m.scan(i, src_addr, src_port, dst_addr, dst_port, now).0);
        }
    }
}

/// A row of the tables after a binding was placed is that binding, in the
/// table picked, or a row that was there before; and in the table picked no
/// other row is on the port, unless the port is shared.
pub proof fn lemma_placed_rows(m: Model, pick: Pick, b: Binding, i: int, r: Binding)
    requires
        pick.index < m.tables.len(),
        0 <= i < m.tables.len(),
        m.placed(pick, b).tables[i].contains(r),
    ensures
        (i == pick.index && r == b) || {
            &&& m.tables[i].contains(r)
            &&& i == pick.index && !pick.shared ==> r.external_port != pick.port
        },
{
    let after = m.placed(pick, b).tables[i];
    if i == pick.index {
        let table = m.tables[i];
        let cleared = if pick.shared {
            table
        } else {
            without_port(table, pick.port)
        };
        let k = choose|k: int| 0 <= k < after.len() && after[k] == r;
        if k < cleared.len() {
            assert(cleared[k] == r);
            assert(cleared.contains(r));
            if !pick.shared {
                lemma_without_port_contains(table, pick.port, r);
            }
        }
    }
}

/// An outbound packet that passes the first checks leaves from the binding
/// that serves it, once that binding stands in its table. One that does not
/// pass changes nothing and does not leave for the external network.
pub proof fn lemma_outbound_unfold(
    m: Model,
    src_addr: u32,
    src_port: u16,
    dst_addr: u32,
    dst_port: u16,
    now: i64,
    pick: Pick,
)
    ensures
        m.passes(src_addr, dst_addr) ==> m.outbound(
            src_addr,
            src_port,
            dst_addr,
            dst_port,
            now,
            pick,
        ) == m.installed(src_addr, src_port, dst_addr, dst_port, now, pick).hairpin(
            src_addr,
            src_port,
            m.addresses[m.exit(src_addr, src_port, dst_addr, dst_port, now, pick).index as int],
            m.exit(src_addr, src_port, dst_addr, dst_port, now, pick).port,
            dst_addr,
            dst_port,
            now,
        ),
        !m.passes(src_addr, dst_addr) ==> {
            &&& m.outbound(src_addr, src_port, dst_addr, dst_port, now, pick).0 == m
            &&& !(m.outbound(src_addr, src_port, dst_addr, dst_port, now, pick).1 is External)
        },
{
}

/// A packet leaves for the external network from the external endpoint it
/// was given, and only where it is not addressed to the translator; the
/// state is then as it was.
pub proof fn lemma_hairpin_external(
    m: Model,
    src_addr: u32,
    src_port: u16,
    ext_addr: u32,
    ext_port: u16,
    dst_addr: u32,
    dst_port: u16,
    now: i64,
)
    ensures
        m.hairpin(src_addr, src_port, ext_addr, ext_port, dst_addr, dst_port, now).1 is External
            ==> {
            &&& m.hairpin(src_addr, src_port, ext_addr, ext_port, dst_addr, dst_port, now) == (
                m,
                DestType::External { external_src_addr: ext_addr, external_src_port: ext_port },
            )
            &&& !m.owns(dst_addr)
        },
{
    let p = crate::model::address_test(dst_addr);
    crate::search::lemma_first_where(m.addresses, p);
    if m.address_index(dst_addr) is Some {
        let k = m.address_index(dst_addr).unwrap();
        assert(p(m.addresses[k]));
        assert(m.addresses[k] == dst_addr);
    }
}

/// What settles where a packet goes thins the state.
pub proof fn lemma_hairpin_thinned(
    m: Model,
    src_addr: u32,
    src_port: u16,
    ext_addr: u32,
    ext_port: u16,
    dst_addr: u32,
    dst_port: u16,
    now: i64,
)
    requires
        m.tables.len() == m.addresses.len(),
    ensures
        m.hairpin(src_addr, src_port, ext_addr, ext_port, dst_addr, dst_port, now).0.thinned_from(
            m,
            now,
        ),
{
    lemma_inbound_thinned(m, ext_addr, ext_port, dst_addr, dst_port, true, now);
}

/// A row that satisfies `q` still does after a refresh at `now`.
pub open spec fn survives(q: spec_fn(Binding) -> bool, now: i64) -> bool {
    forall|r: Binding, r0: Binding|
        #![trigger same_binding(r, r0), q(r0)]
        q(r0) && same_binding(r, r0) && (r.last_used_time == r0.last_used_time || r.last_used_time
            == now) ==> q(r)
}

/// What holds of every row and survives a refresh holds on in a state that
/// was thinned.
pub proof fn lemma_rows_thinned(after: Model, before: Model, now: i64, q: spec_fn(Binding) -> bool)
    requires
        before.all_rows(q),
        survives(q, now),
        after.thinned_from(before, now),
    ensures
        after.all_rows(q),
{
    assert forall|i: int, r: Binding|
        #![trigger after.tables[i].contains(r)]
        0 <= i < after.tables.len() && after.tables[i].contains(r) implies q(r) by {
        assert(thinned(after.tables[i], before.tables[i], now));
        let r0 = choose|r0: Binding|
            #![trigger before.tables[i].contains(r0)]
            before.tables[i].contains(r0) && same_binding(r, r0) && (r.last_used_time
                == r0.last_used_time || r.last_used_time == now);
        assert(q(r0));
        assert(same_binding(r, r0));
    }
}

/// What holds of every row and of a new binding holds of every row once the
/// binding is placed.
pub proof fn lemma_rows_placed(m: Model, pick: Pick, b: Binding, q: spec_fn(Binding) -> bool)
    requires
        m.all_rows(q),
        q(b),
        pick.index < m.tables.len(),
    ensures
        m.placed(pick, b).all_rows(q),
{
    let after = m.placed(pick, b);
    assert forall|i: int, r: Binding|
        #![trigger after.tables[i].contains(r)]
        0 <= i < after.tables.len() && after.tables[i].contains(r) implies q(r) by {
        lemma_placed_rows(m, pick, b, i, r);
        if r != b {
            assert(m.tables[i].contains(r));
        }
    }
}

/// What holds of every row and survives a refresh holds on after a packet
/// from the outside.
pub proof fn lemma_rows_inbound(
    m: Model,
    src_addr: u32,
    src_port: u16,
    dst_addr: u32,
    dst_port: u16,
    bypass: bool,
    now: i64,
    q: spec_fn(Binding) -> bool,
)
    requires
        m.aligned(),
        m.all_rows(q),
        survives(q, now),
    ensures
        m.inbound(src_addr, src_port, dst_addr, dst_port, bypass, now).0.all_rows(q),
{
    lemma_inbound_thinned(m, src_addr, src_port, dst_addr, dst_port, bypass, now);
    lemma_rows_thinned(
        m.inbound(src_addr, src_port, dst_addr, dst_port, bypass, now).0,
        m,
        now,
        q,
    );
}

/// The binding that serves an outbound packet is placed in a table that
/// exists.
pub proof fn lemma_exit_in_range(
    m: Model,
    src_addr: u32,
    src_port: u16,
    dst_addr: u32,
    dst_port: u16,
    now: i64,
    pick: Pick,
)
    requires
        m.aligned(),
        m.passes(src_addr, dst_addr),
        m.allows(src_addr, src_port, dst_addr, dst_port, now, pick),
    ensures
        m.exit(src_addr, src_port, dst_addr, dst_port, now, pick).index < m.tables.len(),
        m.lookup(src_addr, src_port, dst_addr, dst_port, now).0.keeps(m),
        m.installed(src_addr, src_port, dst_addr, dst_port, now, pick).keeps(m),
{
    lemma_lookup_shape(m, 0, None, src_addr, src_port, dst_addr, dst_port, now);
}

/// What holds of every row, survives a refresh and holds of the binding
/// that an outbound packet creates holds on after the packet.
pub proof fn lemma_rows_outbound(
    m: Model,
    src_addr: u32,
    src_port: u16,
    dst_addr: u32,
    dst_port: u16,
    now: i64,
    pick: Pick,
    q: spec_fn(Binding) -> bool,
)
    requires
        m.aligned(),
        m.all_rows(q),
        survives(q, now),
        m.allows(src_addr, src_port, dst_addr, dst_port, now, pick),
        m.passes(src_addr, dst_addr) && !(m.lookup(src_addr, src_port, dst_addr, dst_port, now).1
            is Exact) ==> q(
            new_binding(
                src_addr,
                src_port,
                m.exit(src_addr, src_port, dst_addr, dst_port, now, pick).port,
                dst_addr,
                dst_port,
                now,
            ),
        ),
    ensures
        m.outbound(src_addr, src_port, dst_addr, dst_port, now, pick).0.all_rows(q),
        m.passes(src_addr, dst_addr) ==> m.installed(
            src_addr,
            src_port,
            dst_addr,
            dst_port,
            now,
            pick,
        ).all_rows(q),
{
    lemma_outbound_unfold(m, src_addr, src_port, dst_addr, dst_port, now, pick);
    if m.passes(src_addr, dst_addr) {
        let (searched, found) = m.lookup(src_addr, src_port, dst_addr, dst_port, now);
        let exit = m.exit(src_addr, src_port, dst_addr, dst_port, now, pick);
        let installed = m.installed(src_addr, src_port, dst_addr, dst_port, now, pick);
        lemma_exit_in_range(m, src_addr, src_port, dst_addr, dst_port, now, pick);
        lemma_lookup_thinned(m, src_addr, src_port, dst_addr, dst_port, now);
        lemma_rows_thinned(searched, m, now, q);
        if !(found is Exact) {
            lemma_rows_placed(
                searched,
                exit,
                new_binding(src_addr, src_port, exit.port, dst_addr, dst_port, now),
                q,
            );
        }
        lemma_rows_inbound(
            installed,
            m.addresses[exit.index as int],
            exit.port,
            dst_addr,
            dst_port,
            true,
            now,
            q,
        );
    }
}

} // verus!
