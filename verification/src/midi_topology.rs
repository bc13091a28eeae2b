//! MIDI topology: interfaces with input/output ports, the roles of output ports towards the
//! MU90's two MIDI inputs (Port A = parts 1-16, Port B = parts 17-32), the 32-part route
//! table, and the input ports bound for listening. Pure data and routing queries.

use vstd::prelude::*;

verus! {

/// One MIDI port (a Web MIDI input or output); an interface's input and output of the same
/// name are one port with both flags.
#[derive(Debug, Clone, PartialEq, Eq)]
pub struct MidiPort {
    /// unique port name
    pub name: String,
    pub is_input: bool,
    pub is_output: bool,
}

/// Role of an output port in the MU90 topology.
#[derive(Debug, Clone, Copy, PartialEq, Eq, Structural)]
pub enum MidiRole {
    /// MU90 MIDI IN A: parts 1-16
    PortA,
    /// MU90 MIDI IN B: parts 17-32
    PortB,
    Unassigned,
}

/// A routing target: port name and direction.
#[derive(Debug, Clone, PartialEq, Eq, Hash)]
pub struct PortRef {
    pub name: String,
    pub direction: Direction,
}

#[derive(Debug, Clone, Copy, PartialEq, Eq, Hash, Structural)]
pub enum Direction {
    In,
    Out,
}

/// Part (0-31) to output port; `None` = not sent. Parts 0-15 are Port A, 16-31 Port B.
#[derive(Debug, Clone)]
pub struct PartRouteTable {
    pub routes: [Option<PortRef>; 32],
}

impl Default for PartRouteTable {
    fn default() -> (r: Self)
        ensures
            forall|i: int| 0 <= i < 32 ==> #[trigger] r.routes@[i] is None,
    {
        PartRouteTable {
            routes: [
                None, None, None, None, None, None, None, None,
                None, None, None, None, None, None, None, None,
                None, None, None, None, None, None, None, None,
                None, None, None, None, None, None, None, None,
            ],
        }
    }
}

/// The whole topology: ports (unique names), role per port name, part routes, bound inputs.
#[derive(Debug, Clone)]
pub struct MidiTopology {
    pub ports: Vec<MidiPort>,
    pub roles: Vec<(String, MidiRole)>,
    pub part_routes: PartRouteTable,
    pub bound_inputs: Vec<String>,
}

impl Default for MidiTopology {
    fn default() -> (r: Self)
        ensures
            r.ports@ == Seq::<MidiPort>::empty(),
            r.roles@ == Seq::<(String, MidiRole)>::empty(),
            r.bound_inputs@ == Seq::<String>::empty(),
            forall|i: int| 0 <= i < 32 ==> #[trigger] r.part_routes.routes@[i] is None,
    {
        MidiTopology {
            ports: Vec::new(),
            roles: Vec::new(),
            part_routes: PartRouteTable::default(),
            bound_inputs: Vec::new(),
        }
    }
}

// ---------- model ----------

/// Index of the first port named `name`.
pub open spec fn first_port(ps: Seq<MidiPort>, name: Seq<char>) -> Option<int>
    decreases ps.len(),
{
    if ps.len() == 0 {
        None
    } else {
        match first_port(ps.drop_last(), name) {
            Some(i) => Some(i),
            None => if ps.last().name@ == name { Some(ps.len() - 1) } else { None },
        }
    }
}

/// Adds a port: a port of the same name gains its flags; otherwise it is appended.
pub open spec fn merge_port(ps: Seq<MidiPort>, p: MidiPort) -> Seq<MidiPort> {
    match first_port(ps, p.name@) {
        Some(i) => ps.update(
            i,
            MidiPort { name: ps[i].name, is_input: ps[i].is_input || p.is_input, is_output: ps[i].is_output || p.is_output },
        ),
        None => ps.push(p),
    }
}

/// Adds one port per name, as inputs (`input`) or as outputs.
pub open spec fn add_ports(ps: Seq<MidiPort>, names: Seq<String>, input: bool) -> Seq<MidiPort>
    decreases names.len(),
{
    if names.len() == 0 {
        ps
    } else {
        merge_port(
            add_ports(ps, names.drop_last(), input),
            MidiPort { name: names.last(), is_input: input, is_output: !input },
        )
    }
}

/// The ports found by a probe: inputs first, then outputs, same names merged.
pub open spec fn probe_ports(inputs: Seq<String>, outputs: Seq<String>) -> Seq<MidiPort> {
    add_ports(add_ports(Seq::empty(), inputs, true), outputs, false)
}

/// The ports with the output flag, in order.
pub open spec fn output_list(ps: Seq<MidiPort>) -> Seq<MidiPort>
    decreases ps.len(),
{
    if ps.len() == 0 {
        Seq::empty()
    } else if ps.last().is_output {
        output_list(ps.drop_last()).push(ps.last())
    } else {
        output_list(ps.drop_last())
    }
}

/// The ports with the input flag, in order.
pub open spec fn input_list(ps: Seq<MidiPort>) -> Seq<MidiPort>
    decreases ps.len(),
{
    if ps.len() == 0 {
        Seq::empty()
    } else if ps.last().is_input {
        input_list(ps.drop_last()).push(ps.last())
    } else {
        input_list(ps.drop_last())
    }
}

/// Role entries as (port name, role).
pub open spec fn roles_view(roles: Seq<(String, MidiRole)>) -> Seq<(Seq<char>, MidiRole)> {
    roles.map_values(|e: (String, MidiRole)| (e.0@, e.1))
}

/// Name of the first role entry with `role`.
pub open spec fn role_holder(roles: Seq<(Seq<char>, MidiRole)>, role: MidiRole) -> Option<Seq<char>>
    decreases roles.len(),
{
    if roles.len() == 0 {
        None
    } else {
        match role_holder(roles.drop_last(), role) {
            Some(n) => Some(n),
            None => if roles.last().1 == role { Some(roles.last().0) } else { None },
        }
    }
}

/// Index of the first role entry for port `name`.
pub open spec fn role_entry(roles: Seq<(Seq<char>, MidiRole)>, name: Seq<char>) -> Option<int>
    decreases roles.len(),
{
    if roles.len() == 0 {
        None
    } else {
        match role_entry(roles.drop_last(), name) {
            Some(i) => Some(i),
            None => if roles.last().0 == name { Some(roles.len() - 1) } else { None },
        }
    }
}

/// The route of part `p` under roles: parts 0-15 to the Port A holder, 16-31 to Port B's.
pub open spec fn default_route(roles: Seq<(Seq<char>, MidiRole)>, p: int) -> Option<Seq<char>> {
    if p < 16 { role_holder(roles, MidiRole::PortA) } else { role_holder(roles, MidiRole::PortB) }
}

proof fn lemma_first_port_found(ps: Seq<MidiPort>, name: Seq<char>)
    ensures
        first_port(ps, name) matches Some(i) ==> 0 <= i < ps.len() && ps[i].name@ == name
            && forall|j: int| 0 <= j < i ==> (#[trigger] ps[j]).name@ != name,
        first_port(ps, name) is None ==> forall|j: int| 0 <= j < ps.len() ==> (#[trigger] ps[j]).name@ != name,
    decreases ps.len(),
{
    if ps.len() > 0 {
        lemma_first_port_found(ps.drop_last(), name);
        assert forall|j: int| 0 <= j < ps.len() - 1 implies ps[j] == ps.drop_last()[j] by {}
    }
}

fn push_port(ports: &mut Vec<MidiPort>, new: MidiPort)
    ensures
        final(ports)@ == merge_port(old(ports)@, new),
{
    proof { lemma_first_port_found(ports@, new.name@); }
    let mut i: usize = 0;
    while i < ports.len()
        invariant
            ports@ == old(ports)@,
            0 <= i <= ports@.len(),
            forall|j: int| 0 <= j < i ==> (#[trigger] ports@[j]).name@ != new.name@,
        decreases ports@.len() - i,
    {
        if ports[i].name == new.name {
            let merged = MidiPort {
                name: ports[i].name.clone(),
                is_input: ports[i].is_input || new.is_input,
                is_output: ports[i].is_output || new.is_output,
            };
            ports.set(i, merged);
            proof {
                lemma_first_port_found(old(ports)@, new.name@);
                assert(first_port(old(ports)@, new.name@) == Some(i as int));
            }
            return;
        }
        i = i + 1;
    }
    ports.push(new);
}

impl MidiTopology {
    /// Topology from probe results: input names, output names; an input and an output of the
    /// same name become one port with both flags. No roles, no routes, nothing bound.
    pub fn from_probe(inputs: &[String], outputs: &[String]) -> (r: Self)
        ensures
            r.ports@ == probe_ports(inputs@, outputs@),
            r.roles@ == Seq::<(String, MidiRole)>::empty(),
            r.bound_inputs@ == Seq::<String>::empty(),
            forall|i: int| 0 <= i < 32 ==> #[trigger] r.part_routes.routes@[i] is None,
    {
        let mut ports: Vec<MidiPort> = Vec::new();
        let mut i: usize = 0;
        assert(inputs@.take(0) =~= Seq::<String>::empty());
        while i < inputs.len()
            invariant
                0 <= i <= inputs@.len(),
                ports@ == add_ports(Seq::empty(), inputs@.take(i as int), true),
            decreases inputs@.len() - i,
        {
            assert(inputs@.take(i + 1).drop_last() =~= inputs@.take(i as int));
            push_port(&mut ports, MidiPort { name: inputs[i].clone(), is_input: true, is_output: false });
            i = i + 1;
        }
        assert(inputs@.take(inputs@.len() as int) =~= inputs@);
        let ghost base = ports@;
        let mut j: usize = 0;
        assert(outputs@.take(0) =~= Seq::<String>::empty());
        while j < outputs.len()
            invariant
                0 <= j <= outputs@.len(),
                base == add_ports(Seq::empty(), inputs@, true),
                ports@ == add_ports(base, outputs@.take(j as int), false),
            decreases outputs@.len() - j,
        {
            assert(outputs@.take(j + 1).drop_last() =~= outputs@.take(j as int));
            push_port(&mut ports, MidiPort { name: outputs[j].clone(), is_input: false, is_output: true });
            j = j + 1;
        }
        assert(outputs@.take(outputs@.len() as int) =~= outputs@);
        MidiTopology {
            ports,
            roles: Vec::new(),
            part_routes: PartRouteTable::default(),
            bound_inputs: Vec::new(),
        }
    }
}

proof fn lemma_role_entry_found(roles: Seq<(Seq<char>, MidiRole)>, name: Seq<char>)
    ensures
        role_entry(roles, name) matches Some(i) ==> 0 <= i < roles.len() && roles[i].0 == name
            && forall|j: int| 0 <= j < i ==> (#[trigger] roles[j]).0 != name,
        role_entry(roles, name) is None ==> forall|j: int| 0 <= j < roles.len() ==> (#[trigger] roles[j]).0 != name,
    decreases roles.len(),
{
    if roles.len() > 0 {
        lemma_role_entry_found(roles.drop_last(), name);
        assert forall|j: int| 0 <= j < roles.len() - 1 implies roles[j] == roles.drop_last()[j] by {}
    }
}

proof fn lemma_role_holder_found(roles: Seq<(Seq<char>, MidiRole)>, role: MidiRole)
    ensures
        role_holder(roles, role) matches Some(n) ==> exists|i: int| 0 <= i < roles.len() && roles[i].1 == role
            && roles[i].0 == n && forall|j: int| 0 <= j < i ==> (#[trigger] roles[j]).1 != role,
        role_holder(roles, role) is None ==> forall|j: int| 0 <= j < roles.len() ==> (#[trigger] roles[j]).1 != role,
    decreases roles.len(),
{
    if roles.len() > 0 {
        lemma_role_holder_found(roles.drop_last(), role);
        assert forall|j: int| 0 <= j < roles.len() - 1 implies roles[j] == roles.drop_last()[j] by {}
        if let Some(n) = role_holder(roles.drop_last(), role) {
            let i = choose|i: int| 0 <= i < roles.drop_last().len() && roles.drop_last()[i].1 == role
                && roles.drop_last()[i].0 == n && forall|j: int| 0 <= j < i ==> (#[trigger] roles.drop_last()[j]).1 != role;
            assert(roles[i] == roles.drop_last()[i]);
            assert forall|j: int| 0 <= j < i implies (#[trigger] roles[j]).1 != role by {
                assert(roles[j] == roles.drop_last()[j]);
            }
        }
    }
}

impl MidiTopology {
    /// The ports with the output flag.
    pub fn output_ports(&self) -> (r: Vec<&MidiPort>)
        ensures
            r@.len() == output_list(self.ports@).len(),
            forall|i: int| 0 <= i < r@.len() ==> *(#[trigger] r@[i]) == output_list(self.ports@)[i],
    {
        let mut r: Vec<&MidiPort> = Vec::new();
        let mut i: usize = 0;
        assert(self.ports@.take(0) =~= Seq::<MidiPort>::empty());
        while i < self.ports.len()
            invariant
                0 <= i <= self.ports@.len(),
                r@.len() == output_list(self.ports@.take(i as int)).len(),
                forall|k: int| 0 <= k < r@.len() ==> *(#[trigger] r@[k]) == output_list(self.ports@.take(i as int))[k],
            decreases self.ports@.len() - i,
        {
            assert(self.ports@.take(i + 1).drop_last() =~= self.ports@.take(i as int));
            if self.ports[i].is_output {
                r.push(&self.ports[i]);
            }
            i = i + 1;
        }
        assert(self.ports@.take(self.ports@.len() as int) =~= self.ports@);
        r
    }

    /// The ports with the input flag.
    pub fn input_ports(&self) -> (r: Vec<&MidiPort>)
        ensures
            r@.len() == input_list(self.ports@).len(),
            forall|i: int| 0 <= i < r@.len() ==> *(#[trigger] r@[i]) == input_list(self.ports@)[i],
    {
        let mut r: Vec<&MidiPort> = Vec::new();
        let mut i: usize = 0;
        assert(self.ports@.take(0) =~= Seq::<MidiPort>::empty());
        while i < self.ports.len()
            invariant
                0 <= i <= self.ports@.len(),
                r@.len() == input_list(self.ports@.take(i as int)).len(),
                forall|k: int| 0 <= k < r@.len() ==> *(#[trigger] r@[k]) == input_list(self.ports@.take(i as int))[k],
            decreases self.ports@.len() - i,
        {
            assert(self.ports@.take(i + 1).drop_last() =~= self.ports@.take(i as int));
            if self.ports[i].is_input {
                r.push(&self.ports[i]);
            }
            i = i + 1;
        }
        assert(self.ports@.take(self.ports@.len() as int) =~= self.ports@);
        r
    }

    /// Name of the first port holding `role`.
    pub fn output_for_role(&self, role: MidiRole) -> (r: Option<String>)
        ensures
            match role_holder(roles_view(self.roles@), role) {
                Some(n) => r matches Some(s) && s@ == n,
                None => r is None,
            },
    {
        let ghost rv = roles_view(self.roles@);
        let mut i: usize = 0;
        while i < self.roles.len()
            invariant
                rv == roles_view(self.roles@),
                0 <= i <= self.roles@.len(),
                forall|j: int| 0 <= j < i ==> (#[trigger] rv[j]).1 != role,
            decreases self.roles@.len() - i,
        {
            assert(rv[i as int] == (self.roles@[i as int].0@, self.roles@[i as int].1));
            if self.roles[i].1 == role {
                proof {
                    lemma_role_holder_found(rv, role);
                    if let Some(n) = role_holder(rv, role) {
                        let k = choose|k: int| 0 <= k < rv.len() && rv[k].1 == role
                            && rv[k].0 == n && forall|j: int| 0 <= j < k ==> (#[trigger] rv[j]).1 != role;
                        assert(k == i);
                    }
                }
                return Some(self.roles[i].0.clone());
            }
            i = i + 1;
        }
        proof { lemma_role_holder_found(rv, role); }
        None
    }

    /// Sets the role of a port: the first entry for that name is updated, else one is added.
    pub fn set_role(&mut self, port_name: &str, role: MidiRole)
        ensures
            final(self).ports == old(self).ports,
            final(self).part_routes == old(self).part_routes,
            final(self).bound_inputs == old(self).bound_inputs,
            roles_view(final(self).roles@) == set_role_spec(roles_view(old(self).roles@), port_name@, role),
    {
        let ghost rv = roles_view(self.roles@);
        let wanted: String = port_name.to_owned();
        let mut i: usize = 0;
        while i < self.roles.len()
            invariant
                wanted@ == port_name@,
                self.roles@ == old(self).roles@,
                rv == roles_view(old(self).roles@),
                self.ports == old(self).ports,
                self.part_routes == old(self).part_routes,
                self.bound_inputs == old(self).bound_inputs,
                0 <= i <= self.roles@.len(),
                forall|j: int| 0 <= j < i ==> (#[trigger] rv[j]).0 != port_name@,
            decreases self.roles@.len() - i,
        {
            assert(rv[i as int] == (self.roles@[i as int].0@, self.roles@[i as int].1));
            if self.roles[i].0 == wanted {
                let name = self.roles[i].0.clone();
                self.roles.set(i, (name, role));
                proof {
                    lemma_role_entry_found(rv, port_name@);
                    assert(role_entry(rv, port_name@) == Some(i as int));
                    assert(roles_view(self.roles@) =~= rv.update(i as int, (rv[i as int].0, role)));
                }
                return;
            }
            i = i + 1;
        }
        proof { lemma_role_entry_found(rv, port_name@); }
        self.roles.push((port_name.to_owned(), role));
        assert(roles_view(self.roles@) =~= rv.push((port_name@, role)));
    }

    /// Default part routes: parts 0-15 to the Port A holder, 16-31 to the Port B holder
    /// (as outputs); parts without a holder are not routed.
    pub fn rebuild_default_routes(&mut self)
        ensures
            final(self).ports == old(self).ports,
            final(self).roles == old(self).roles,
            final(self).bound_inputs == old(self).bound_inputs,
            forall|p: int| 0 <= p < 32 ==> (match #[trigger] final(self).part_routes.routes@[p] {
                Some(r) => default_route(roles_view(old(self).roles@), p) == Some(r.name@) && r.direction == Direction::Out,
                None => default_route(roles_view(old(self).roles@), p) is None,
            }),
    {
        let a = self.output_for_role(MidiRole::PortA);
        let b = self.output_for_role(MidiRole::PortB);
        let mut routes: [Option<PortRef>; 32] = PartRouteTable::default().routes;
        let mut part: usize = 0;
        while part < 32
            invariant
                0 <= part <= 32,
                match role_holder(roles_view(self.roles@), MidiRole::PortA) {
                    Some(n) => a matches Some(s) && s@ == n,
                    None => a is None,
                },
                match role_holder(roles_view(self.roles@), MidiRole::PortB) {
                    Some(n) => b matches Some(s) && s@ == n,
                    None => b is None,
                },
                forall|p: int| 0 <= p < part ==> (match #[trigger] routes@[p] {
                    Some(r) => default_route(roles_view(self.roles@), p) == Some(r.name@) && r.direction == Direction::Out,
                    None => default_route(roles_view(self.roles@), p) is None,
                }),
            decreases 32 - part,
        {
            let target = if part < 16 { &a } else { &b };
            let route = match target {
                Some(name) => Some(PortRef { name: name.clone(), direction: Direction::Out }),
                None => None,
            };
            routes[part] = route;
            part = part + 1;
        }
        self.part_routes = PartRouteTable { routes };
    }

    /// Default roles: the first output port becomes Port A, the second Port B; then the
    /// default routes are rebuilt.
    pub fn auto_assign_roles(&mut self)
        ensures
            final(self).ports == old(self).ports,
            final(self).bound_inputs == old(self).bound_inputs,
            roles_view(final(self).roles@) == auto_roles(roles_view(old(self).roles@), old(self).ports@),
            forall|p: int| 0 <= p < 32 ==> (match #[trigger] final(self).part_routes.routes@[p] {
                Some(r) => default_route(roles_view(final(self).roles@), p) == Some(r.name@) && r.direction == Direction::Out,
                None => default_route(roles_view(final(self).roles@), p) is None,
            }),
    {
        let outs = self.output_ports();
        let mut out_names: Vec<String> = Vec::new();
        let mut i: usize = 0;
        while i < outs.len()
            invariant
                0 <= i <= outs@.len(),
                out_names@.len() == i,
                forall|k: int| 0 <= k < i ==> (#[trigger] out_names@[k])@ == outs@[k].name@,
            decreases outs@.len() - i,
        {
            out_names.push(outs[i].name.clone());
            i = i + 1;
        }
        if out_names.len() >= 1 {
            self.set_role(out_names[0].as_str(), MidiRole::PortA);
        }
        if out_names.len() >= 2 {
            self.set_role(out_names[1].as_str(), MidiRole::PortB);
        }
        self.rebuild_default_routes();
    }

    /// The route of a part (0-31); `None` for unrouted parts and part numbers above 31.
    pub fn route_for_part(&self, part: u8) -> (r: Option<&PortRef>)
        ensures
            part < 32 ==> match r {
                Some(x) => self.part_routes.routes@[part as int] == Some(*x),
                None => self.part_routes.routes@[part as int] is None,
            },
            part >= 32 ==> r is None,
    {
        if (part as usize) < 32 {
            match &self.part_routes.routes[part as usize] {
                Some(pr) => Some(pr),
                None => None,
            }
        } else {
            None
        }
    }

    /// Whether a part (0-31) has a route.
    pub fn part_is_routed(&self, part: u8) -> (r: bool)
        ensures
            r == (part < 32 && self.part_routes.routes@[part as int] is Some),
    {
        self.route_for_part(part).is_some()
    }

    /// Whether an input port is bound for listening.
    pub fn is_input_bound(&self, name: &str) -> (r: bool)
        ensures
            r == exists|i: int| 0 <= i < self.bound_inputs@.len() && (#[trigger] self.bound_inputs@[i])@ == name@,
    {
        let wanted: String = name.to_owned();
        let mut i: usize = 0;
        while i < self.bound_inputs.len()
            invariant
                wanted@ == name@,
                0 <= i <= self.bound_inputs@.len(),
                forall|j: int| 0 <= j < i ==> (#[trigger] self.bound_inputs@[j])@ != name@,
            decreases self.bound_inputs@.len() - i,
        {
            if self.bound_inputs[i] == wanted {
                return true;
            }
            i = i + 1;
        }
        false
    }
}

/// The role entries after `auto_assign_roles`: Port A to the first output port's name,
/// then Port B to the second's.
pub open spec fn auto_roles(roles: Seq<(Seq<char>, MidiRole)>, ports: Seq<MidiPort>) -> Seq<(Seq<char>, MidiRole)> {
    let outs = output_list(ports);
    let r1 = if outs.len() >= 1 { set_role_spec(roles, outs[0].name@, MidiRole::PortA) } else { roles };
    if outs.len() >= 2 { set_role_spec(r1, outs[1].name@, MidiRole::PortB) } else { r1 }
}

/// Role entries after setting port `name` to `role`: its first entry changes role, or a new
/// entry is appended.
pub open spec fn set_role_spec(roles: Seq<(Seq<char>, MidiRole)>, name: Seq<char>, role: MidiRole) -> Seq<(Seq<char>, MidiRole)> {
    match role_entry(roles, name) {
        Some(i) => roles.update(i, (roles[i].0, role)),
        None => roles.push((name, role)),
    }
}

// ---------- output targets ----------

/// Appends `x` unless the list already has it.
pub open spec fn push_new(list: Seq<Seq<char>>, x: Seq<char>) -> Seq<Seq<char>> {
    if list.contains(x) { list } else { list.push(x) }
}

/// The device name at an optional index of the device list.
pub open spec fn device_at(devices: Seq<String>, i: Option<usize>) -> Option<Seq<char>> {
    match i {
        Some(k) => if k < devices.len() { Some(devices[k as int]@) } else { None },
        None => None,
    }
}

/// Appends an optional name unless the list already has it.
pub open spec fn push_opt(list: Seq<Seq<char>>, x: Option<Seq<char>>) -> Seq<Seq<char>> {
    match x {
        Some(n) => push_new(list, n),
        None => list,
    }
}

/// The outputs playback and sending go to, each once, in this order: the selected device,
/// the second selected device when mirroring to port B, and the outputs holding the port A
/// and port B roles.
pub open spec fn output_targets(devices: Seq<String>, selected: Option<usize>, mirror_to_b: bool,
    selected_b: Option<usize>, roles: Seq<(Seq<char>, MidiRole)>) -> Seq<Seq<char>> {
    let a = push_opt(Seq::empty(), device_at(devices, selected));
    let b = if mirror_to_b { push_opt(a, device_at(devices, selected_b)) } else { a };
    push_opt(push_opt(b, role_holder(roles, MidiRole::PortA)), role_holder(roles, MidiRole::PortB))
}

/// The names of a list of strings.
pub open spec fn names(v: Seq<String>) -> Seq<Seq<char>> {
    v.map_values(|s: String| s@)
}

fn push_if_new(v: &mut Vec<String>, x: String)
    ensures
        names(final(v)@) == push_new(names(old(v)@), x@),
{
    let mut i: usize = 0;
    while i < v.len()
        invariant
            v@ == old(v)@,
            0 <= i <= v@.len(),
            forall|j: int| 0 <= j < i ==> (#[trigger] v@[j])@ != x@,
        decreases v@.len() - i,
    {
        if v[i] == x {
            assert(names(v@)[i as int] == x@);
            return;
        }
        i = i + 1;
    }
    assert(!names(v@).contains(x@)) by {
        if names(v@).contains(x@) {
            let j = choose|j: int| 0 <= j < names(v@).len() && names(v@)[j] == x@;
            assert(v@[j]@ == x@);
        }
    }
    let ghost xv = x@;
    v.push(x);
    assert(names(v@) =~= names(old(v)@).push(xv));
}

fn device_name(devices: &[String], i: Option<usize>) -> (r: Option<String>)
    ensures
        match r {
            Some(n) => device_at(devices@, i) == Some(n@),
            None => device_at(devices@, i) is None,
        },
{
    match i {
        Some(k) => if k < devices.len() { Some(devices[k].clone()) } else { None },
        None => None,
    }
}

/// All selected output devices: the selected one, the port-B one when mirroring, and the
/// outputs holding the port A / port B roles, without repeats.
pub fn active_outputs(devices: &[String], selected: Option<usize>, mirror_to_b: bool,
    selected_b: Option<usize>, topology: &MidiTopology) -> (r: Vec<String>)
    ensures
        names(r@) == output_targets(devices@, selected, mirror_to_b, selected_b, roles_view(topology.roles@)),
{
    let mut v: Vec<String> = Vec::new();
    assert(names(v@) =~= Seq::<Seq<char>>::empty());
    match device_name(devices, selected) {
        Some(d) => push_if_new(&mut v, d),
        None => {},
    }
    if mirror_to_b {
        match device_name(devices, selected_b) {
            Some(d) => push_if_new(&mut v, d),
            None => {},
        }
    }
    match topology.output_for_role(MidiRole::PortA) {
        Some(n) => push_if_new(&mut v, n),
        None => {},
    }
    match topology.output_for_role(MidiRole::PortB) {
        Some(n) => push_if_new(&mut v, n),
        None => {},
    }
    v
}

// ---------- laws ----------

/// No two ports share a name.
pub open spec fn names_unique(ps: Seq<MidiPort>) -> bool {
    forall|i: int, j: int| 0 <= i < j < ps.len() ==> (#[trigger] ps[i]).name@ != (#[trigger] ps[j]).name@
}

/// Some port is named `n`.
pub open spec fn has_port(ps: Seq<MidiPort>, n: Seq<char>) -> bool {
    exists|i: int| 0 <= i < ps.len() && (#[trigger] ps[i]).name@ == n
}

/// `n` is one of the names.
pub open spec fn has_name(names: Seq<String>, n: Seq<char>) -> bool {
    exists|k: int| 0 <= k < names.len() && (#[trigger] names[k])@ == n
}

proof fn lemma_add_ports(ps: Seq<MidiPort>, names: Seq<String>, input: bool)
    requires
        names_unique(ps),
    ensures
        names_unique(add_ports(ps, names, input)),
        forall|n: Seq<char>| #[trigger] has_port(add_ports(ps, names, input), n)
            <==> (has_port(ps, n) || has_name(names, n)),
        forall|i: int| 0 <= i < add_ports(ps, names, input).len() ==> {
            let q = #[trigger] add_ports(ps, names, input)[i];
            let old_in = exists|k: int| 0 <= k < ps.len() && ps[k].name@ == q.name@ && ps[k].is_input;
            let old_out = exists|k: int| 0 <= k < ps.len() && ps[k].name@ == q.name@ && ps[k].is_output;
            &&& q.is_input == (old_in || (input && has_name(names, q.name@)))
            &&& q.is_output == (old_out || (!input && has_name(names, q.name@)))
        },
    decreases names.len(),
{
    if names.len() > 0 {
        let t = names.drop_last();
        lemma_add_ports(ps, t, input);
        let base = add_ports(ps, t, input);
        let np = MidiPort { name: names.last(), is_input: input, is_output: !input };
        lemma_first_port_found(base, np.name@);
        let r = merge_port(base, np);
        assert forall|k: int| 0 <= k < t.len() implies t[k] == names[k] by {}
        assert forall|n: Seq<char>| has_name(names, n) <==> (has_name(t, n) || names.last()@ == n) by {
            if has_name(names, n) {
                let k = choose|k: int| 0 <= k < names.len() && (#[trigger] names[k])@ == n;
                if k < t.len() { assert(t[k] == names[k]); }
            }
            if has_name(t, n) {
                let k = choose|k: int| 0 <= k < t.len() && (#[trigger] t[k])@ == n;
                assert(names[k] == t[k]);
            }
            if names.last()@ == n {
                assert(names[names.len() - 1]@ == n);
            }
        }
        match first_port(base, np.name@) {
            Some(i0) => {
                assert(r == base.update(i0, MidiPort { name: base[i0].name, is_input: base[i0].is_input || input, is_output: base[i0].is_output || !input }));
                assert forall|i: int, j: int| 0 <= i < j < r.len() implies (#[trigger] r[i]).name@ != (#[trigger] r[j]).name@ by {
                    assert(r[i].name == base[i].name && r[j].name == base[j].name);
                }
                assert forall|n: Seq<char>| #[trigger] has_port(r, n)
                    <==> has_port(base, n) by {
                    if exists|i: int| 0 <= i < r.len() && (#[trigger] r[i]).name@ == n {
                        let i = choose|i: int| 0 <= i < r.len() && (#[trigger] r[i]).name@ == n;
                        assert(base[i].name == r[i].name);
                    }
                    if exists|i: int| 0 <= i < base.len() && (#[trigger] base[i]).name@ == n {
                        let i = choose|i: int| 0 <= i < base.len() && (#[trigger] base[i]).name@ == n;
                        assert(base[i].name == r[i].name);
                    }
                }
            },
            None => {
                assert(r == base.push(np));
                assert forall|i: int, j: int| 0 <= i < j < r.len() implies (#[trigger] r[i]).name@ != (#[trigger] r[j]).name@ by {
                    if j < base.len() {
                        assert(r[i] == base[i] && r[j] == base[j]);
                    } else {
                        assert(r[i] == base[i]);
                    }
                }
                assert forall|n: Seq<char>| #[trigger] has_port(r, n)
                    <==> (has_port(base, n) || np.name@ == n) by {
                    if exists|i: int| 0 <= i < r.len() && (#[trigger] r[i]).name@ == n {
                        let i = choose|i: int| 0 <= i < r.len() && (#[trigger] r[i]).name@ == n;
                        if i < base.len() { assert(base[i] == r[i]); }
                    }
                    if exists|i: int| 0 <= i < base.len() && (#[trigger] base[i]).name@ == n {
                        let i = choose|i: int| 0 <= i < base.len() && (#[trigger] base[i]).name@ == n;
                        assert(base[i] == r[i]);
                    }
                    if np.name@ == n {
                        assert(r[r.len() - 1] == np);
                    }
                }
            },
        }
        assert forall|i: int| 0 <= i < r.len() implies {
            let q = #[trigger] r[i];
            let old_in = exists|k: int| 0 <= k < ps.len() && ps[k].name@ == q.name@ && ps[k].is_input;
            let old_out = exists|k: int| 0 <= k < ps.len() && ps[k].name@ == q.name@ && ps[k].is_output;
            &&& q.is_input == (old_in || (input && has_name(names, q.name@)))
            &&& q.is_output == (old_out || (!input && has_name(names, q.name@)))
        } by {
            if i < base.len() {
                let b = base[i];
                assert(r[i].name == b.name);
                if b.name@ != np.name@ {
                    assert(r[i] == b);
                }
            } else {
                assert(r[i] == np);
                assert(!has_port(base, np.name@));
                assert(!has_name(t, np.name@));
                assert(!has_port(ps, np.name@));
                assert(!(exists|k: int| 0 <= k < ps.len() && ps[k].name@ == np.name@ && ps[k].is_input)) by {
                    if exists|k: int| 0 <= k < ps.len() && ps[k].name@ == np.name@ && ps[k].is_input {
                        let k = choose|k: int| 0 <= k < ps.len() && ps[k].name@ == np.name@ && ps[k].is_input;
                        assert(has_port(ps, np.name@));
                    }
                }
                assert(!(exists|k: int| 0 <= k < ps.len() && ps[k].name@ == np.name@ && ps[k].is_output)) by {
                    if exists|k: int| 0 <= k < ps.len() && ps[k].name@ == np.name@ && ps[k].is_output {
                        let k = choose|k: int| 0 <= k < ps.len() && ps[k].name@ == np.name@ && ps[k].is_output;
                        assert(has_port(ps, np.name@));
                    }
                }
            }
        }
    }
}

/// The ports of a probe: one per distinct name among inputs and outputs, an input flag
/// exactly for the input names and an output flag exactly for the output names.
pub proof fn probe_merges_ports(inputs: Seq<String>, outputs: Seq<String>)
    ensures
        names_unique(probe_ports(inputs, outputs)),
        forall|n: Seq<char>| #[trigger] has_port(probe_ports(inputs, outputs), n)
            <==> (has_name(inputs, n) || has_name(outputs, n)),
        forall|i: int| 0 <= i < probe_ports(inputs, outputs).len() ==> {
            &&& (#[trigger] probe_ports(inputs, outputs)[i]).is_input == has_name(inputs, probe_ports(inputs, outputs)[i].name@)
            &&& probe_ports(inputs, outputs)[i].is_output == has_name(outputs, probe_ports(inputs, outputs)[i].name@)
        },
{
    let e = Seq::<MidiPort>::empty();
    lemma_add_ports(e, inputs, true);
    let a = add_ports(e, inputs, true);
    lemma_add_ports(a, outputs, false);
    let b = add_ports(a, outputs, false);
    assert forall|i: int| 0 <= i < b.len() implies {
        &&& (#[trigger] b[i]).is_input == has_name(inputs, b[i].name@)
        &&& b[i].is_output == has_name(outputs, b[i].name@)
    } by {
        let q = b[i];
        if exists|k: int| 0 <= k < a.len() && a[k].name@ == q.name@ && a[k].is_input {
            let k = choose|k: int| 0 <= k < a.len() && a[k].name@ == q.name@ && a[k].is_input;
            assert(a[k].is_input == has_name(inputs, a[k].name@));
        }
        if has_name(inputs, q.name@) {
            assert(has_port(a, q.name@));
            let k = choose|k: int| 0 <= k < a.len() && (#[trigger] a[k]).name@ == q.name@;
            assert(a[k].is_input == has_name(inputs, a[k].name@));
        }
        if exists|k: int| 0 <= k < a.len() && a[k].name@ == q.name@ && a[k].is_output {
            let k = choose|k: int| 0 <= k < a.len() && a[k].name@ == q.name@ && a[k].is_output;
            assert(a[k].is_output == (false || (false && has_name(inputs, a[k].name@))));
        }
    }
}

/// Setting a port's role gives that port the role.
pub proof fn set_role_takes_effect(roles: Seq<(Seq<char>, MidiRole)>, name: Seq<char>, role: MidiRole)
    ensures
        role_entry(set_role_spec(roles, name, role), name) matches Some(i)
            && set_role_spec(roles, name, role)[i] == (name, role),
        set_role_spec(roles, name, role).len() == roles.len() + (if role_entry(roles, name) is Some { 0int } else { 1int }),
{
    lemma_role_entry_found(roles, name);
    let r = set_role_spec(roles, name, role);
    lemma_role_entry_found(r, name);
    match role_entry(roles, name) {
        Some(i) => {
            assert(r[i] == (name, role));
            if let Some(k) = role_entry(r, name) {
                if k < i { assert(r[k] == roles[k]); }
                if k > i { assert(r[i].0 == name); }
            }
        },
        None => {
            assert(r[r.len() - 1] == (name, role));
            if let Some(k) = role_entry(r, name) {
                if k < roles.len() { assert(r[k] == roles[k]); }
            }
        },
    }
}

/// No two role entries name the same port.
pub open spec fn role_names_distinct(roles: Seq<(Seq<char>, MidiRole)>) -> bool {
    forall|i: int, j: int| 0 <= i < j < roles.len() ==> (#[trigger] roles[i]).0 != (#[trigger] roles[j]).0
}

/// Setting a role keeps the port names of the role entries distinct, and leaves every other
/// entry as it was, at its place: an entry for the name changes in place, or a new entry is
/// appended.
pub proof fn set_role_keeps_entries(roles: Seq<(Seq<char>, MidiRole)>, name: Seq<char>, role: MidiRole)
    requires
        role_names_distinct(roles),
    ensures
        role_names_distinct(set_role_spec(roles, name, role)),
        set_role_spec(roles, name, role).contains((name, role)),
        forall|i: int| 0 <= i < roles.len() && (#[trigger] roles[i]).0 != name
            ==> set_role_spec(roles, name, role)[i] == roles[i],
        (forall|i: int| 0 <= i < roles.len() ==> (#[trigger] roles[i]).0 != name)
            ==> set_role_spec(roles, name, role) == roles.push((name, role)),
{
    lemma_role_entry_found(roles, name);
    let r = set_role_spec(roles, name, role);
    match role_entry(roles, name) {
        Some(k) => {
            assert(r[k] == (name, role));
            assert forall|i: int, j: int| 0 <= i < j < r.len() implies (#[trigger] r[i]).0 != (#[trigger] r[j]).0 by {
                assert(r[i].0 == roles[i].0 && r[j].0 == roles[j].0);
            }
        },
        None => {
            assert(r[roles.len() as int] == (name, role));
            assert forall|i: int, j: int| 0 <= i < j < r.len() implies (#[trigger] r[i]).0 != (#[trigger] r[j]).0 by {
                if j < roles.len() {
                    assert(r[i] == roles[i] && r[j] == roles[j]);
                } else {
                    assert(r[i] == roles[i]);
                }
            }
        },
    }
}

proof fn lemma_output_list_in(ps: Seq<MidiPort>)
    ensures
        forall|i: int| 0 <= i < output_list(ps).len() ==> ps.contains(#[trigger] output_list(ps)[i]),
    decreases ps.len(),
{
    if ps.len() > 0 {
        let t = ps.drop_last();
        lemma_output_list_in(t);
        assert forall|i: int| 0 <= i < output_list(ps).len() implies ps.contains(#[trigger] output_list(ps)[i]) by {
            if i < output_list(t).len() {
                assert(output_list(ps)[i] == output_list(t)[i]);
                let k = choose|k: int| 0 <= k < t.len() && t[k] == output_list(t)[i];
                assert(ps[k] == t[k]);
            } else {
                assert(ps[ps.len() - 1] == output_list(ps)[i]);
            }
        }
    }
}

proof fn lemma_output_names_distinct(ps: Seq<MidiPort>)
    requires
        names_unique(ps),
    ensures
        names_unique(output_list(ps)),
    decreases ps.len(),
{
    if ps.len() > 0 {
        let t = ps.drop_last();
        assert(names_unique(t)) by {
            assert forall|i: int, j: int| 0 <= i < j < t.len() implies (#[trigger] t[i]).name@ != (#[trigger] t[j]).name@ by {
                assert(t[i] == ps[i] && t[j] == ps[j]);
            }
        }
        lemma_output_names_distinct(t);
        if ps.last().is_output {
            let o = output_list(t);
            let r = o.push(ps.last());
            lemma_output_list_in(t);
            assert forall|i: int, j: int| 0 <= i < j < r.len() implies (#[trigger] r[i]).name@ != (#[trigger] r[j]).name@ by {
                if j == r.len() - 1 {
                    assert(t.contains(o[i]));
                    let k = choose|k: int| 0 <= k < t.len() && t[k] == o[i];
                    assert(t[k] == ps[k]);
                    assert(ps[k].name@ != ps[ps.len() - 1].name@);
                } else {
                    assert(r[i] == o[i] && r[j] == o[j]);
                }
            }
        }
    }
}

/// On a freshly probed topology, automatic role assignment routes parts 1-16 to the first
/// output port and parts 17-32 to the second one; with a single output, parts 17-32 stay
/// unrouted.
pub proof fn auto_assign_routes_fresh(inputs: Seq<String>, outputs: Seq<String>)
    ensures
        ({
            let ps = probe_ports(inputs, outputs);
            let outs = output_list(ps);
            let roles = auto_roles(Seq::empty(), ps);
            forall|p: int| 0 <= p < 32 ==> #[trigger] default_route(roles, p) == (if p < 16 {
                if outs.len() >= 1 { Some(outs[0].name@) } else { None }
            } else {
                if outs.len() >= 2 { Some(outs[1].name@) } else { None }
            })
        }),
{
    let ps = probe_ports(inputs, outputs);
    probe_merges_ports(inputs, outputs);
    lemma_output_names_distinct(ps);
    let outs = output_list(ps);
    let e = Seq::<(Seq<char>, MidiRole)>::empty();
    if outs.len() >= 1 {
        let r1 = set_role_spec(e, outs[0].name@, MidiRole::PortA);
        assert(r1 =~= seq![(outs[0].name@, MidiRole::PortA)]);
        if outs.len() >= 2 {
            assert(outs[0].name@ != outs[1].name@);
            assert(role_entry(r1.drop_last(), outs[1].name@) is None);
            let r2 = set_role_spec(r1, outs[1].name@, MidiRole::PortB);
            assert(r2 =~= seq![(outs[0].name@, MidiRole::PortA), (outs[1].name@, MidiRole::PortB)]);
            assert(r2.drop_last() =~= r1);
            assert(r1.drop_last() =~= e);
            assert(role_holder(e, MidiRole::PortB) is None);
            assert(role_holder(e, MidiRole::PortA) is None);
            assert(role_holder(r1, MidiRole::PortB) is None);
            assert(role_holder(r1, MidiRole::PortA) == Some(outs[0].name@));
            assert(role_holder(r2, MidiRole::PortA) == Some(outs[0].name@));
            assert(role_holder(r2, MidiRole::PortB) == Some(outs[1].name@));
        } else {
            assert(r1.drop_last() =~= e);
            assert(role_holder(e, MidiRole::PortB) is None);
            assert(role_holder(e, MidiRole::PortA) is None);
            assert(role_holder(r1, MidiRole::PortB) is None);
            assert(role_holder(r1, MidiRole::PortA) == Some(outs[0].name@));
        }
    } else {
        assert(role_holder(e, MidiRole::PortB) is None);
        assert(role_holder(e, MidiRole::PortA) is None);
    }
}

} // verus!
