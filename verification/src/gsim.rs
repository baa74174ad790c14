pub mod dla;

use vstd::prelude::*;

verus! {

/// The first input a simulation lacks, in the order the simulator looks for them.
#[derive(Debug, Clone, Copy, PartialEq, Eq, Structural)]
pub enum SimulationGap {
    /// The expectation vector of the initial state has not been prepared.
    EIn,
    /// No parameters and gate numbers have been set.
    ParamsAndGateNumbers,
    /// Gate Hamiltonians have not been brought into the adjoint representation.
    AdRepGateHams,
    /// Circuit position `position` names gate `number`, but there are only `count` gates.
    GateNumber { position: usize, number: usize, count: usize },
}

/// What a simulator holds: the matrices it was made with and the parts prepared
/// from them so far.
pub struct GSimView<M, R, P> {
    pub init_density_matrix: M,
    pub observable: M,
    pub parameters_and_gate_numbers: Option<Seq<(P, usize)>>,
    pub hamiltonians: Seq<M>,
    pub dla: Option<Seq<M>>,
    pub e_in: Option<R>,
    pub ad_rep_gate_hams: Option<Seq<M>>,
}

/// The gates up to (not including) `upto` name existing gates.
pub open spec fn gates_in_range<P>(params: Seq<(P, usize)>, count: nat, upto: int) -> bool {
    forall|k: int| 0 <= k < upto ==> (#[trigger] params[k]).1 < count
}

impl<M, R, P> GSimView<M, R, P> {
    /// The expectation vector and the adjoint-represented gates are only ever
    /// prepared from a dynamical Lie algebra.
    pub open spec fn wf(self) -> bool {
        &&& self.e_in is Some ==> self.dla is Some
        &&& self.ad_rep_gate_hams is Some ==> self.dla is Some
    }

    /// The first input missing for a simulation; for a gate number out of range,
    /// the first such gate.
    pub open spec fn first_gap(self) -> Option<SimulationGap> {
        if self.e_in is None {
            Some(SimulationGap::EIn)
        } else if self.parameters_and_gate_numbers is None {
            Some(SimulationGap::ParamsAndGateNumbers)
        } else if self.ad_rep_gate_hams is None {
            Some(SimulationGap::AdRepGateHams)
        } else {
            let params = self.parameters_and_gate_numbers.unwrap();
            let count = self.ad_rep_gate_hams.unwrap().len();
            if gates_in_range(params, count, params.len() as int) {
                None
            } else {
                let k = choose|k: int|
                    0 <= k < params.len() && params[k].1 >= count && gates_in_range(
                        params,
                        count,
                        k,
                    );
                Some(
                    SimulationGap::GateNumber {
                        position: k as usize,
                        number: params[k].1,
                        count: count as usize,
                    },
                )
            }
        }
    }
}

/// The Hamiltonians a simulator's algebra is generated from: the observable first,
/// then each gate's Hamiltonian, in the order the gates are numbered.
pub fn dla_generators<M>(observable: M, gate_hamiltonians: Vec<M>) -> (r: Vec<M>)
    ensures
        r@ == seq![observable] + gate_hamiltonians@,
{
    let mut r: Vec<M> = Vec::new();
    r.push(observable);
    let mut gates = gate_hamiltonians;
    r.append(&mut gates);
    r
}

/// A simulator whose algebra, expectation vector and adjoint-represented gates
/// are prepared can run every circuit whose gate numbers name existing gates.
pub proof fn lemma_prepared_simulator_runs<M, R, P>(
    g: GSimView<M, R, P>,
    dla: Seq<M>,
    e_in: R,
    ad_rep_gate_hams: Seq<M>,
    params: Seq<(P, usize)>,
)
    requires
        forall|k: int| 0 <= k < params.len() ==> (#[trigger] params[k]).1 < ad_rep_gate_hams.len(),
    ensures
        (GSimView {
            dla: Some(dla),
            e_in: Some(e_in),
            ad_rep_gate_hams: Some(ad_rep_gate_hams),
            parameters_and_gate_numbers: Some(params),
            ..g
        }).wf(),
        (GSimView {
            dla: Some(dla),
            e_in: Some(e_in),
            ad_rep_gate_hams: Some(ad_rep_gate_hams),
            parameters_and_gate_numbers: Some(params),
            ..g
        }).first_gap() is None,
{
}

/// After the initial state is replaced, no simulation runs until its expectation
/// vector is prepared again.
pub proof fn lemma_new_initial_state_needs_e_in<M, R, P>(g: GSimView<M, R, P>, init: M)
    ensures
        (GSimView { init_density_matrix: init, e_in: None, ..g }).first_gap() == Some(
            SimulationGap::EIn,
        ),
{
}

/// A circuit that names a gate beyond the prepared ones is refused at the first
/// such gate, when every other input is present.
pub proof fn lemma_first_bad_gate_reported<M, R, P>(g: GSimView<M, R, P>, k: int)
    requires
        g.e_in is Some,
        g.ad_rep_gate_hams is Some,
        g.parameters_and_gate_numbers is Some,
        0 <= k < g.parameters_and_gate_numbers.unwrap().len(),
        g.parameters_and_gate_numbers.unwrap()[k].1 >= g.ad_rep_gate_hams.unwrap().len(),
        gates_in_range(g.parameters_and_gate_numbers.unwrap(), g.ad_rep_gate_hams.unwrap().len(), k),
    ensures
        g.first_gap() == Some(
            SimulationGap::GateNumber {
                position: k as usize,
                number: g.parameters_and_gate_numbers.unwrap()[k].1,
                count: g.ad_rep_gate_hams.unwrap().len() as usize,
            },
        ),
{
    let params = g.parameters_and_gate_numbers.unwrap();
    let count = g.ad_rep_gate_hams.unwrap().len();
    assert(!gates_in_range(params, count, params.len() as int));
    let want = choose|j: int|
        0 <= j < params.len() && params[j].1 >= count && gates_in_range(params, count, j);
    assert(want == k) by {
        if want < k {
            assert(params[want].1 < count);
        } else if want > k {
            assert(params[k].1 < count);
        }
    }
}

/// A simulator of a parametrised circuit in the adjoint representation of the
/// dynamical Lie algebra its gates generate.
///
/// `M` is the type of its matrices, `R` that of its real vectors and `P` that of
/// gate parameters.
pub struct GSim<M, R, P> {
    init_density_matrix: M,
    observable: M,
    parameters_and_gate_numbers: Option<Vec<(P, usize)>>,
    hamiltonians: Vec<M>,
    dla: Option<Vec<M>>,
    e_in: Option<R>,
    ad_rep_gate_hams: Option<Vec<M>>,
}

/// Prepares the dynamical Lie algebra of a simulator.
pub trait GenerateDLA<M> {
    /// Stores the dynamical Lie algebra generated by the simulator's Hamiltonians.
    fn prepare_dla(&mut self, dla: Vec<M>);
}

impl<M, R, P> View for GSim<M, R, P> {
    type V = GSimView<M, R, P>;

    closed spec fn view(&self) -> GSimView<M, R, P> {
        GSimView {
            init_density_matrix: self.init_density_matrix,
            observable: self.observable,
            parameters_and_gate_numbers: match self.parameters_and_gate_numbers {
                Some(v) => Some(v@),
                None => None,
            },
            hamiltonians: self.hamiltonians@,
            dla: match self.dla {
                Some(v) => Some(v@),
                None => None,
            },
            e_in: self.e_in,
            ad_rep_gate_hams: match self.ad_rep_gate_hams {
                Some(v) => Some(v@),
                None => None,
            },
        }
    }
}

impl<M, R, P> GSim<M, R, P> {
    /// A simulator with nothing prepared yet.
    pub fn new(init_density_matrix: M, observable: M, hamiltonians: Vec<M>) -> (g: GSim<M, R, P>)
        ensures
            g@ == (GSimView::<M, R, P> {
                init_density_matrix,
                observable,
                parameters_and_gate_numbers: None,
                hamiltonians: hamiltonians@,
                dla: None,
                e_in: None,
                ad_rep_gate_hams: None,
            }),
            g@.wf(),
    {
        GSim {
            init_density_matrix,
            observable,
            hamiltonians,
            parameters_and_gate_numbers: None,
            dla: None,
            e_in: None,
            ad_rep_gate_hams: None,
        }
    }

    /// Sets the circuit to simulate: each gate as its parameter and the position of
    /// its Hamiltonian among gate Hamiltonians, in the order they are applied.
    pub fn set_params_and_gate_numbers(&mut self, parameters_and_gate_numbers: Vec<(P, usize)>)
        requires
            old(self)@.wf(),
        ensures
            final(self)@ == (GSimView {
                parameters_and_gate_numbers: Some(parameters_and_gate_numbers@),
                ..old(self)@
            }),
            final(self)@.wf(),
    {
        self.parameters_and_gate_numbers = Some(parameters_and_gate_numbers);
    }

    /// Replaces the initial state; the expectation vector prepared from the old one
    /// is dropped.
    pub fn set_initial_density_matrix(&mut self, initial_density_matrix: M)
        requires
            old(self)@.wf(),
        ensures
            final(self)@ == (GSimView {
                init_density_matrix: initial_density_matrix,
                e_in: None,
                ..old(self)@
            }),
            final(self)@.wf(),
    {
        self.init_density_matrix = initial_density_matrix;
        self.e_in = None;
    }

    /// Replaces the observable.
    pub fn set_observable(&mut self, observable: M)
        requires
            old(self)@.wf(),
        ensures
            final(self)@ == (GSimView { observable, ..old(self)@ }),
            final(self)@.wf(),
    {
        self.observable = observable;
    }

    /// Stores the expectation vector of the initial state over the algebra, which
    /// must have been prepared.
    pub fn prepare_e_in(&mut self, e_in: R)
        requires
            old(self)@.wf(),
            old(self)@.dla is Some,
        ensures
            final(self)@ == (GSimView { e_in: Some(e_in), ..old(self)@ }),
            final(self)@.wf(),
    {
        self.e_in = Some(e_in);
    }

    /// Stores gate Hamiltonians in the adjoint representation of the algebra,
    /// which must have been prepared.
    pub fn prepare_gate_hams(&mut self, ad_rep_gate_hams: Vec<M>)
        requires
            old(self)@.wf(),
            old(self)@.dla is Some,
        ensures
            final(self)@ == (GSimView { ad_rep_gate_hams: Some(ad_rep_gate_hams@), ..old(self)@ }),
            final(self)@.wf(),
    {
        self.ad_rep_gate_hams = Some(ad_rep_gate_hams);
    }

    /// The first input a simulation still lacks, or `None` when it can run.
    pub fn first_gap(&self) -> (r: Option<SimulationGap>)
        ensures
            r == self@.first_gap(),
    {
        if self.e_in.is_none() {
            return Some(SimulationGap::EIn);
        }
        if self.parameters_and_gate_numbers.is_none() {
            return Some(SimulationGap::ParamsAndGateNumbers);
        }
        if self.ad_rep_gate_hams.is_none() {
            return Some(SimulationGap::AdRepGateHams);
        }
        let params = self.parameters_and_gate_numbers.as_ref().unwrap();
        let count: usize = self.ad_rep_gate_hams.as_ref().unwrap().len();
        let ghost ps = params@;
        let mut k: usize = 0;
        while k < params.len()
            invariant
                ps == params@,
                self@.e_in is Some,
                self@.parameters_and_gate_numbers is Some,
                self@.ad_rep_gate_hams is Some,
                ps == self@.parameters_and_gate_numbers.unwrap(),
                count == self@.ad_rep_gate_hams.unwrap().len(),
                k <= ps.len(),
                gates_in_range(ps, count as nat, k as int),
            decreases ps.len() - k,
        {
            if params[k].1 >= count {
                proof {
                    lemma_first_bad_gate_reported(self@, k as int);
                }
                return Some(SimulationGap::GateNumber { position: k, number: params[k].1, count });
            }
            k = k + 1;
        }
        None
    }
}

impl<M, R, P> GSim<M, R, P> {
    /// What a simulation runs on: the expectation vector of the initial state, the
    /// gates, gate Hamiltonians in the adjoint representation, the observable
    /// and the algebra. Every input must be present and every gate number in range.
    pub fn simulation_inputs(&self) -> (r: (&R, &Vec<(P, usize)>, &Vec<M>, &M, &Vec<M>))
        requires
            self@.wf(),
            self@.first_gap() is None,
        ensures
            self@.e_in == Some(*r.0),
            self@.parameters_and_gate_numbers == Some(r.1@),
            self@.ad_rep_gate_hams == Some(r.2@),
            *r.3 == self@.observable,
            self@.dla == Some(r.4@),
            forall|k: int| 0 <= k < r.1@.len() ==> (#[trigger] r.1@[k]).1 < r.2@.len(),
    {
        (
            self.e_in.as_ref().unwrap(),
            self.parameters_and_gate_numbers.as_ref().unwrap(),
            self.ad_rep_gate_hams.as_ref().unwrap(),
            &self.observable,
            self.dla.as_ref().unwrap(),
        )
    }

    /// The initial state.
    pub fn init_density_matrix(&self) -> (r: &M)
        ensures
            *r == self@.init_density_matrix,
    {
        &self.init_density_matrix
    }

    /// The observable.
    pub fn observable(&self) -> (r: &M)
        ensures
            *r == self@.observable,
    {
        &self.observable
    }

    /// The Hamiltonians the algebra is generated from.
    pub fn hamiltonians(&self) -> (r: &Vec<M>)
        ensures
            r@ == self@.hamiltonians,
    {
        &self.hamiltonians
    }

    /// The dynamical Lie algebra, which must have been prepared.
    pub fn get_dla(&self) -> (r: &Vec<M>)
        requires
            self@.dla is Some,
        ensures
            self@.dla == Some(r@),
    {
        self.dla.as_ref().unwrap()
    }

    /// The dynamical Lie algebra, once prepared.
    pub fn prepared_dla(&self) -> (r: Option<&Vec<M>>)
        ensures
            r is Some <==> self@.dla is Some,
            r matches Some(d) ==> self@.dla == Some(d@),
    {
        self.dla.as_ref()
    }

    /// The expectation vector of the initial state, once prepared.
    pub fn e_in(&self) -> (r: Option<&R>)
        ensures
            r is Some <==> self@.e_in is Some,
            r matches Some(e) ==> self@.e_in == Some(*e),
    {
        self.e_in.as_ref()
    }

    /// Gate Hamiltonians in the adjoint representation, once prepared.
    pub fn ad_rep_gate_hams(&self) -> (r: Option<&Vec<M>>)
        ensures
            r is Some <==> self@.ad_rep_gate_hams is Some,
            r matches Some(a) ==> self@.ad_rep_gate_hams == Some(a@),
    {
        self.ad_rep_gate_hams.as_ref()
    }
}

impl<M, R, P> GenerateDLA<M> for GSim<M, R, P> {
    /// Stores the dynamical Lie algebra generated by the simulator's Hamiltonians.
    fn prepare_dla(&mut self, dla: Vec<M>)
        ensures
            final(self)@ == (GSimView { dla: Some(dla@), ..old(self)@ }),
            old(self)@.wf() ==> final(self)@.wf(),
    {
        self.dla = Some(dla);
    }
}

} // verus!
