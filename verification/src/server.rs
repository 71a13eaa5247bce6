//! The set of live ports, by name.
use crate::port;
use crate::port::PortState;
use crate::table;
use crate::table::Table;
use crate::text;
use vstd::prelude::*;

verus! {

/// The ports by name.
pub struct PortMap {
    inner: Table<PortState>,
}

impl View for PortMap {
    type V = table::Pairs<port::PortView>;

    closed spec fn view(&self) -> table::Pairs<port::PortView> {
        self.inner@
    }
}

/// Every port is well-formed and stands under its own name, and none stands
/// there twice.
pub open spec fn ports_wf(ports: table::Pairs<port::PortView>) -> bool {
    &&& table::distinct(ports)
    &&& forall|i: int|
        0 <= i < ports.len() ==> (#[trigger] ports[i]).1.wf() && ports[i].1.name == ports[i].0
}

/// The contents of a list of ports.
pub open spec fn port_views(list: Seq<&PortState>) -> Seq<port::PortView> {
    list.map_values(|p: &PortState| p@)
}

impl PortMap {
    /// No ports.
    pub fn new() -> (r: PortMap)
        ensures
            r@ == Seq::<(Seq<char>, port::PortView)>::empty(),
            ports_wf(r@),
    {
        PortMap { inner: Table::new() }
    }

    /// The port of the given name.
    pub fn get(&self, name: &str) -> (r: Option<&PortState>)
        ensures
            match r {
                Some(state) => table::lookup(self@, name@) == Some(state@),
                None => table::lookup(self@, name@) is None,
            },
    {
        self.inner.get(name)
    }

    /// The port of the given name, to be changed.
    pub fn get_mut(&mut self, name: &str) -> (r: Option<&mut PortState>)
        ensures
            match r {
                Some(state) => {
                    &&& table::lookup(old(self)@, name@) == Some(state@)
                    &&& final(self)@ == table::inserted(old(self)@, name@, final(state)@)
                },
                None => table::lookup(old(self)@, name@) is None && final(self)@ == old(self)@,
            },
    {
        match self.inner.place_of(name) {
            Some(i) => Some(self.inner.value_at_mut(i)),
            None => None,
        }
    }

    /// The ports, in the order in which their names came.
    pub fn values(&self) -> (r: Vec<&PortState>)
        ensures
            port_views(r@) == table::values(self@),
    {
        let mut out: Vec<&PortState> = Vec::new();
        let mut i: usize = 0;
        while i < self.inner.len()
            invariant
                i <= self@.len(),
                port_views(out@) == table::values(self@).take(i as int),
            decreases self@.len() - i,
        {
            let ghost so_far = port_views(out@);
            out.push(self.inner.value_at(i));
            assert(port_views(out@) =~= so_far.push(self@[i as int].1));
            assert(table::values(self@).take(i + 1) =~= so_far.push(self@[i as int].1));
            i = i + 1;
        }
        assert(table::values(self@).take(i as int) =~= table::values(self@));
        out
    }

    /// Adds a port, in place of one that has the same name.
    pub fn insert(&mut self, state: PortState)
        requires
            ports_wf(old(self)@),
            state@.wf(),
        ensures
            final(self)@ == table::inserted(old(self)@, state@.name, state@),
            ports_wf(final(self)@),
    {
        proof {
            table::law_insert_then_lookup(self@, state@.name, state@, state@.name);
        }
        self.inner.insert(state.name().to_owned(), state);
    }

    /// Takes a port out.
    pub fn remove(&mut self, name: &str) -> (r: Option<PortState>)
        requires
            ports_wf(old(self)@),
        ensures
            match r {
                Some(state) => table::lookup(old(self)@, name@) == Some(state@),
                None => table::lookup(old(self)@, name@) is None,
            },
            final(self)@ == table::removed(old(self)@, name@),
            ports_wf(final(self)@),
    {
        proof {
            table::law_remove_then_lookup(self@, name@, name@);
        }
        self.inner.remove(name)
    }

    /// The names of the ports.
    pub fn names(&self) -> (r: Vec<String>)
        ensures
            text::texts(r@) == table::names(self@),
    {
        self.inner.names()
    }
}

/// The state of the whole service.
pub struct Server {
    pub ports: PortMap,
}

} // verus!
