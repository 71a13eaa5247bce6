//! Applying a new configuration to the running ports.
//!
//! Ports that stay get their scenarios and rules swapped in place, new ports
//! are started, and ports that are no longer configured are dropped. Opening
//! the device of a new port is elsewhere: a step says that one is to be opened,
//! and the port that came of it is added before the next step.
use crate::config;
use crate::config::PortConfig;
use crate::port;
use crate::port::PortState;
use crate::server;
use crate::server::Server;
use crate::table;
use crate::text;
use vstd::prelude::*;

verus! {

/// What the configuration of one port led to.
#[derive(Debug)]
pub enum ReloadStep {
    /// The running port has taken the configuration.
    Swapped,
    /// The running port could not take it, and goes on as it was.
    Kept(String),
    /// There is no such port yet: start one.
    Spawn,
}

/// What a `ReloadStep` holds.
pub enum ReloadStepView {
    Swapped,
    Kept(Seq<char>),
    Spawn,
}

impl View for ReloadStep {
    type V = ReloadStepView;

    open spec fn view(&self) -> ReloadStepView {
        match self {
            ReloadStep::Swapped => ReloadStepView::Swapped,
            ReloadStep::Kept(e) => ReloadStepView::Kept(e@),
            ReloadStep::Spawn => ReloadStepView::Spawn,
        }
    }
}

/// A running port after the configuration was handed to it, taken or not.
pub open spec fn taken(p: port::PortView, cfg: &PortConfig) -> port::PortView {
    match p.swapped(cfg) {
        Ok(after) => after,
        Err(_) => p,
    }
}

/// The ports after the configuration of one port, and what is left to do.
pub open spec fn reload_step(ports: table::Pairs<port::PortView>, cfg: &PortConfig) -> (
    table::Pairs<port::PortView>,
    ReloadStepView,
) {
    match table::lookup(ports, cfg.name@) {
        None => (ports, ReloadStepView::Spawn),
        Some(p) => (
            table::inserted(ports, cfg.name@, taken(p, cfg)),
            match p.swapped(cfg) {
                Ok(_) => ReloadStepView::Swapped,
                Err(e) => ReloadStepView::Kept(e),
            },
        ),
    }
}

/// The ports without those of `existing` that are no longer configured, and the
/// ports that went.
pub open spec fn without_stale(
    ports: table::Pairs<port::PortView>,
    existing: Seq<Seq<char>>,
    configured: Seq<PortConfig>,
) -> (table::Pairs<port::PortView>, Seq<port::PortView>)
    decreases existing.len(),
{
    if existing.len() == 0 {
        (ports, seq![])
    } else {
        let (left, gone) = without_stale(ports, existing.drop_last(), configured);
        let name = existing.last();
        match table::lookup(left, name) {
            Some(p) if !config::has_port(configured, configured.len() as int, name) => (
                table::removed(left, name),
                gone.push(p),
            ),
            _ => (left, gone),
        }
    }
}

/// The contents of a list of ports.
pub open spec fn states_of(list: Seq<PortState>) -> Seq<port::PortView> {
    list.map_values(|p: PortState| p@)
}

impl Server {
    /// Hands a running port its new configuration, or says that there is no such
    /// port.
    pub fn reload_port(&mut self, cfg: &PortConfig) -> (r: ReloadStep)
        requires
            server::ports_wf(old(self).ports@),
        ensures
            (final(self).ports@, r@) == reload_step(old(self).ports@, cfg),
            server::ports_wf(final(self).ports@),
    {
        proof {
            table::lemma_place(self.ports@, cfg.name@);
            if let Some(p) = table::lookup(self.ports@, cfg.name@) {
                table::law_insert_then_lookup(self.ports@, cfg.name@, taken(p, cfg), cfg.name@);
            }
        }
        match self.ports.get_mut(cfg.name.as_str()) {
            None => ReloadStep::Spawn,
            Some(state) => match state.swap_config(cfg) {
                Ok(()) => ReloadStep::Swapped,
                Err(e) => ReloadStep::Kept(e),
            },
        }
    }

    /// Takes out the ports of `existing` that are no longer configured.
    pub fn drop_stale(&mut self, existing: &Vec<String>, configured: &Vec<PortConfig>) -> (r: Vec<
        PortState,
    >)
        requires
            server::ports_wf(old(self).ports@),
        ensures
            (final(self).ports@, states_of(r@)) == without_stale(
                old(self).ports@,
                text::texts(existing@),
                configured@,
            ),
            server::ports_wf(final(self).ports@),
    {
        let ghost before = self.ports@;
        let ghost all = text::texts(existing@);
        let mut gone: Vec<PortState> = Vec::new();
        let mut i: usize = 0;
        assert(all.take(0) =~= seq![]);
        assert(states_of(gone@) =~= seq![]);
        while i < existing.len()
            invariant
                i <= existing.len(),
                all == text::texts(existing@),
                server::ports_wf(self.ports@),
                (self.ports@, states_of(gone@)) == without_stale(
                    before,
                    all.take(i as int),
                    configured@,
                ),
            decreases existing.len() - i,
        {
            let name = &existing[i];
            let ghost so_far = states_of(gone@);
            assert(all.take(i + 1).drop_last() =~= all.take(i as int));
            assert(all.take(i + 1).last() == name@);
            if !config::port_known(configured, configured.len(), name) {
                if let Some(state) = self.ports.remove(name.as_str()) {
                    gone.push(state);
                    assert(states_of(gone@) =~= so_far.push(state@));
                } else {
                    proof {
                        table::lemma_place(self.ports@, name@);
                    }
                }
            }
            i = i + 1;
        }
        assert(all.take(i as int) =~= all);
        gone
    }
}

// ---------------------------------------------------------------------------
// Laws
// ---------------------------------------------------------------------------

/// The ports after the steps for all configured ports. `opened` holds, for each
/// of them, the port that was started when there was none, if starting it went
/// well.
pub open spec fn stepped(
    ports: table::Pairs<port::PortView>,
    configured: Seq<PortConfig>,
    opened: Seq<Option<port::PortView>>,
) -> table::Pairs<port::PortView>
    decreases configured.len(),
{
    if configured.len() == 0 {
        ports
    } else {
        let so_far = stepped(ports, configured.drop_last(), opened.drop_last());
        let (after, step) = reload_step(so_far, &configured.last());
        match (step, opened.last()) {
            (ReloadStepView::Spawn, Some(p)) => table::inserted(after, p.name, p),
            _ => after,
        }
    }
}

/// The ports after a reload.
pub open spec fn reloaded(
    ports: table::Pairs<port::PortView>,
    configured: Seq<PortConfig>,
    opened: Seq<Option<port::PortView>>,
) -> table::Pairs<port::PortView> {
    without_stale(stepped(ports, configured, opened), table::names(ports), configured).0
}

/// The configured ports have different names, and what was started for one of
/// them is a port of that name.
pub open spec fn opened_for(
    configured: Seq<PortConfig>,
    opened: Seq<Option<port::PortView>>,
) -> bool {
    &&& opened.len() == configured.len()
    &&& forall|i: int, j: int|
        0 <= i < j < configured.len() ==> (#[trigger] configured[i]).name@ != (
        #[trigger] configured[j]).name@
    &&& forall|i: int|
        0 <= i < opened.len() ==> (#[trigger] opened[i] matches Some(p) ==> p.wf() && p.name
            == configured[i].name@)
}

proof fn lemma_opened_front(configured: Seq<PortConfig>, opened: Seq<Option<port::PortView>>)
    requires
        opened_for(configured, opened),
        configured.len() > 0,
    ensures
        opened_for(configured.drop_last(), opened.drop_last()),
        opened.last() matches Some(p) ==> p.wf() && p.name == configured.last().name@,
{
    let front = configured.drop_last();
    let opened_front = opened.drop_last();
    assert forall|i: int| 0 <= i < opened_front.len() implies (
    #[trigger] opened_front[i] matches Some(p) ==> p.wf() && p.name == front[i].name@) by {
        assert(opened_front[i] == opened[i]);
    }
    assert forall|i: int, j: int| 0 <= i < j < front.len() implies (#[trigger] front[i]).name@ != (
    #[trigger] front[j]).name@ by {
        assert(configured[i].name@ != configured[j].name@);
    }
    assert(opened[opened.len() - 1] == opened.last());
}

proof fn lemma_stepped(
    ports: table::Pairs<port::PortView>,
    configured: Seq<PortConfig>,
    opened: Seq<Option<port::PortView>>,
    name: Seq<char>,
)
    requires
        server::ports_wf(ports),
        opened_for(configured, opened),
    ensures
        server::ports_wf(stepped(ports, configured, opened)),
        !config::has_port(configured, configured.len() as int, name) ==> table::lookup(
            stepped(ports, configured, opened),
            name,
        ) == table::lookup(ports, name),
        forall|i: int|
            0 <= i < configured.len() && (#[trigger] configured[i]).name@ == name ==> table::lookup(
                stepped(ports, configured, opened),
                name,
            ) == (match table::lookup(ports, name) {
                Some(p) => Some(taken(p, &configured[i])),
                None => opened[i],
            }),
    decreases configured.len(),
{
    if configured.len() > 0 {
        let front = configured.drop_last();
        let opened_front = opened.drop_last();
        let last = configured.last();
        lemma_opened_front(configured, opened);
        lemma_stepped(ports, front, opened_front, name);
        let so_far = stepped(ports, front, opened_front);
        table::lemma_place(so_far, last.name@);
        if let Some(p) = table::lookup(so_far, last.name@) {
            if p.swapped(&last) is Ok {
                port::law_reload_keeps_device_and_capture(p, &last);
            }
            table::law_insert_then_lookup(so_far, last.name@, taken(p, &last), name);
        } else if let Some(p) = opened.last() {
            table::law_insert_then_lookup(so_far, p.name, p, name);
        }
        if config::has_port(front, front.len() as int, name) {
            let i = choose|i: int| 0 <= i < front.len() && (#[trigger] front[i]).name@ == name;
            assert(configured[i].name@ == name);
        }
        assert forall|i: int|
            0 <= i < configured.len() && (
            #[trigger] configured[i]).name@ == name implies table::lookup(
            stepped(ports, configured, opened),
            name,
        ) == (match table::lookup(ports, name) {
            Some(p) => Some(taken(p, &configured[i])),
            None => opened[i],
        }) by {
            if i < front.len() {
                assert(front[i] == configured[i]);
                assert(opened_front[i] == opened[i]);
                assert(configured[i].name@ != configured[configured.len() - 1].name@);
            } else if config::has_port(front, front.len() as int, name) {
                let j = choose|j: int| 0 <= j < front.len() && (#[trigger] front[j]).name@ == name;
                assert(configured[j].name@ != configured[i].name@);
            }
        }
    }
}

proof fn lemma_without_stale(
    ports: table::Pairs<port::PortView>,
    existing: Seq<Seq<char>>,
    configured: Seq<PortConfig>,
    name: Seq<char>,
)
    requires
        server::ports_wf(ports),
    ensures
        server::ports_wf(without_stale(ports, existing, configured).0),
        table::lookup(without_stale(ports, existing, configured).0, name) == if config::has_port(
            configured,
            configured.len() as int,
            name,
        ) || !existing.contains(name) {
            table::lookup(ports, name)
        } else {
            None
        },
    decreases existing.len(),
{
    if existing.len() > 0 {
        let front = existing.drop_last();
        lemma_without_stale(ports, front, configured, name);
        let left = without_stale(ports, front, configured).0;
        table::law_remove_then_lookup(left, existing.last(), name);
        if front.contains(name) {
            let i = choose|i: int| 0 <= i < front.len() && front[i] == name;
            assert(existing[i] == name);
        } else if existing.contains(name) {
            let i = choose|i: int| 0 <= i < existing.len() && existing[i] == name;
            assert(i < front.len() ==> front[i] == name);
            assert(existing.last() == name);
        }
        assert(existing[existing.len() - 1] == existing.last());
    }
}

/// After a reload, a port that was running has the new configuration, or goes
/// on as it was where that does not work, and keeps its device, its link and
/// everything that was captured; a port that was not running is the one that
/// was started for it, if one was.
pub proof fn law_reload_serves_configured_ports(
    ports: table::Pairs<port::PortView>,
    configured: Seq<PortConfig>,
    opened: Seq<Option<port::PortView>>,
    i: int,
)
    requires
        server::ports_wf(ports),
        opened_for(configured, opened),
        0 <= i < configured.len(),
    ensures
        ({
            let name = configured[i].name@;
            let after = table::lookup(reloaded(ports, configured, opened), name);
            match table::lookup(ports, name) {
                Some(p) => {
                    &&& after == Some(taken(p, &configured[i]))
                    &&& after->0.name == p.name
                    &&& after->0.device_path == p.device_path
                    &&& after->0.symlink == p.symlink
                    &&& after->0.capture == p.capture
                },
                None => after == opened[i],
            }
        }),
{
    let name = configured[i].name@;
    lemma_stepped(ports, configured, opened, name);
    lemma_without_stale(
        stepped(ports, configured, opened),
        table::names(ports),
        configured,
        name,
    );
    assert(config::has_port(configured, configured.len() as int, name));
    table::lemma_place(ports, name);
    if let Some(p) = table::lookup(ports, name) {
        if p.swapped(&configured[i]) is Ok {
            port::law_reload_keeps_device_and_capture(p, &configured[i]);
        }
    }
}

/// After a reload, no port is left that is not configured, and the ports that
/// are left are well-formed.
pub proof fn law_reload_drops_the_rest(
    ports: table::Pairs<port::PortView>,
    configured: Seq<PortConfig>,
    opened: Seq<Option<port::PortView>>,
    name: Seq<char>,
)
    requires
        server::ports_wf(ports),
        opened_for(configured, opened),
    ensures
        !config::has_port(configured, configured.len() as int, name) ==> table::lookup(
            reloaded(ports, configured, opened),
            name,
        ) is None,
        server::ports_wf(reloaded(ports, configured, opened)),
{
    lemma_stepped(ports, configured, opened, name);
    lemma_without_stale(
        stepped(ports, configured, opened),
        table::names(ports),
        configured,
        name,
    );
    table::lemma_place(ports, name);
    if table::lookup(ports, name) is Some {
        assert(table::names(ports)[table::place(ports, name) as int] == name);
    }
}

/// A running port takes a configuration that it can take, and is left exactly as
/// it was by one that it cannot, with the reason. A port that is not running is
/// to be started. No other port is touched.
pub proof fn law_reload_step(
    ports: table::Pairs<port::PortView>,
    cfg: &PortConfig,
    other: Seq<char>,
)
    requires
        server::ports_wf(ports),
    ensures
        ({
            let (after, step) = reload_step(ports, cfg);
            match table::lookup(ports, cfg.name@) {
                None => step == ReloadStepView::Spawn && after == ports,
                Some(p) => match p.swapped(cfg) {
                    Ok(q) => step == ReloadStepView::Swapped && table::lookup(after, cfg.name@)
                        == Some(q),
                    Err(e) => step == ReloadStepView::Kept(e) && after == ports,
                },
            }
        }),
        other != cfg.name@ ==> table::lookup(reload_step(ports, cfg).0, other) == table::lookup(
            ports,
            other,
        ),
        table::names(reload_step(ports, cfg).0) == table::names(ports),
{
    let after = reload_step(ports, cfg).0;
    table::lemma_place(ports, cfg.name@);
    if let Some(p) = table::lookup(ports, cfg.name@) {
        table::law_insert_then_lookup(ports, cfg.name@, taken(p, cfg), other);
        if p.swapped(cfg) is Err {
            assert(after =~= ports);
        }
    }
    assert(table::names(after) =~= table::names(ports));
}

/// After a reload with a port that passed validation, the running port of that name
/// frames and answers as one that is newly started from it, and its active scenario
/// is the one that it had, where that is still declared, else the initial one.
pub proof fn law_reload_works_like_a_restart(
    ports: table::Pairs<port::PortView>,
    configured: Seq<PortConfig>,
    opened: Seq<Option<port::PortView>>,
    i: int,
)
    requires
        server::ports_wf(ports),
        opened_for(configured, opened),
        0 <= i < configured.len(),
        config::valid_port(configured[i]),
        table::lookup(ports, configured[i].name@) is Some,
    ensures
        ({
            let cfg = &configured[i];
            let before = table::lookup(ports, cfg.name@)->0;
            let after = table::lookup(reloaded(ports, configured, opened), cfg.name@);
            &&& port::spawned(cfg) matches Ok(fresh) && (after matches Some(p) && p.framing
                == fresh.framing && p.compiled == fresh.compiled)
            &&& (exists|k: int|
                0 <= k < cfg.scenarios@.len() && (#[trigger] cfg.scenarios@[k]).name@
                    == before.active) ==> after->0.active == before.active
            &&& !(exists|k: int|
                0 <= k < cfg.scenarios@.len() && (#[trigger] cfg.scenarios@[k]).name@
                    == before.active) ==> after->0.active == cfg.initial_scenario@
        }),
{
    let cfg = &configured[i];
    let before = table::lookup(ports, cfg.name@)->0;
    law_reload_serves_configured_ports(ports, configured, opened, i);
    port::law_valid_port_starts_and_reloads(cfg, before);
    port::law_reload_takes_the_whole_configuration(before, cfg);
}

/// The ports that are handed back to be shut down are those that went: each was
/// running under a name that is no longer configured, and each such port is among
/// them.
pub proof fn law_stale_ports_are_handed_back(
    ports: table::Pairs<port::PortView>,
    existing: Seq<Seq<char>>,
    configured: Seq<PortConfig>,
    p: port::PortView,
)
    requires
        server::ports_wf(ports),
    ensures
        without_stale(ports, existing, configured).1.contains(p) <==> table::lookup(ports, p.name)
            == Some(p) && existing.contains(p.name) && !(exists|k: int|
            0 <= k < configured.len() && (#[trigger] configured[k]).name@ == p.name),
    decreases existing.len(),
{
    let (left, gone) = without_stale(ports, existing, configured);
    if existing.len() > 0 {
        let front = existing.drop_last();
        let name = existing.last();
        let (left_front, gone_front) = without_stale(ports, front, configured);
        law_stale_ports_are_handed_back(ports, front, configured, p);
        lemma_without_stale(ports, front, configured, name);
        table::lemma_place(left_front, name);
        assert(existing[existing.len() - 1] == name);
        if front.contains(p.name) {
            let k = choose|k: int| 0 <= k < front.len() && front[k] == p.name;
            assert(existing[k] == p.name);
        }
        if existing.contains(p.name) && p.name != name {
            let k = choose|k: int| 0 <= k < existing.len() && existing[k] == p.name;
            assert(front[k] == p.name);
        }
        if gone_front.contains(p) {
            let k = choose|k: int| 0 <= k < gone_front.len() && gone_front[k] == p;
            assert(gone[k] == p);
        }
        if gone.contains(p) && !gone_front.contains(p) {
            let k = choose|k: int| 0 <= k < gone.len() && gone[k] == p;
            if k < gone_front.len() {
                assert(gone_front[k] == p);
            }
            assert(p == gone.last());
        }
        match table::lookup(left_front, name) {
            Some(q) if !config::has_port(configured, configured.len() as int, name) => {
                assert(gone[gone.len() - 1] == q);
                assert(q.name == name);
            },
            _ => {},
        }
    }
}

} // verus!
