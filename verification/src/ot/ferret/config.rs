//! Parameters of the extension, and how they are chosen.
use crate::num::{checked_next_power_of_two, exact_log2, is_power, lemma_is_up, log2_up};
use crate::ot::ferret::cuckoo::{compute_table_length, table_length};
use crate::ot::ferret::mpcot::LpnType;
use vstd::arithmetic::power2::*;
use vstd::prelude::*;

verus! {

/// Computational security parameter.
pub const CSP: usize = 128;

/// Parameters of learning parity with noise.
#[derive(Clone, Copy, Debug, PartialEq, Eq, Structural)]
pub struct LpnParameters {
    /// The length of the output.
    pub n: usize,
    /// The length of the input.
    pub k: usize,
    /// The number of errors.
    pub t: usize,
}

/// The number of COTs needed to execute an iteration with the given parameters.
pub open spec fn cost(ty: LpnType, p: LpnParameters) -> nat {
    match ty {
        LpnType::Uniform => {
            let m = table_length(p.t as nat);
            m * log2_up((6 * p.n as nat) / m) + p.k as nat + CSP as nat
        },
        LpnType::Regular => p.t as nat * log2_up((p.n / p.t) as nat) + p.k as nat + CSP as nat,
    }
}

/// The cost of the parameters can be computed.
pub open spec fn costable(ty: LpnType, p: LpnParameters) -> bool {
    &&& p.t > 0
    &&& cost(ty, p) <= usize::MAX
    &&& match ty {
        LpnType::Uniform => {
            &&& table_length(p.t as nat) <= usize::MAX
            &&& 6 * p.n <= usize::MAX
            &&& pow2(log2_up((6 * p.n as nat) / table_length(p.t as nat))) <= usize::MAX
        },
        // n is divisible by t and n/t is a power of 2.
        LpnType::Regular => p.n % p.t == 0 && is_power((p.n / p.t) as nat),
    }
}

/// Returns the number of COTs needed to execute an iteration with the given
/// parameters.
pub fn iteration_cost(ty: LpnType, params: LpnParameters) -> (r: usize)
    requires
        costable(ty, params),
    ensures
        r == cost(ty, params),
{
    match ty {
        // The number here is a rough estimation to ensure sufficient buffer.
        // It is hard to precisely compute the number because of the Cuckoo hashes.
        LpnType::Uniform => {
            let m: usize = compute_table_length(params.t);
            match checked_next_power_of_two(6 * params.n / m) {
                Some((_, log)) => m * log + params.k + CSP,
                None => 0,
            }
        },
        LpnType::Regular => match exact_log2(params.n / params.t) {
            Some(log) => {
                proof {
                    lemma_is_up(log as nat);
                }
                params.t * log + params.k + CSP
            },
            None => 0,
        },
    }
}

/// Returns whether the cost of the parameters can be computed.
pub fn is_costable(ty: LpnType, params: LpnParameters) -> (r: bool)
    ensures
        r == costable(ty, params),
{
    if params.t == 0 {
        return false;
    }
    let (count, log): (usize, usize) = match ty {
        LpnType::Uniform => {
            let m: u128 = params.t as u128 + (params.t as u128 + 1) / 2;
            if m > usize::MAX as u128 || params.n > usize::MAX / 6 {
                return false;
            }
            match checked_next_power_of_two(6 * params.n / m as usize) {
                Some((_, log)) => (m as usize, log),
                None => return false,
            }
        },
        LpnType::Regular => {
            if params.n % params.t != 0 {
                return false;
            }
            match exact_log2(params.n / params.t) {
                Some(log) => {
                    proof {
                        lemma_is_up(log as nat);
                    }
                    (params.t, log)
                },
                None => return false,
            }
        },
    };
    match count.checked_mul(log) {
        Some(points) => match points.checked_add(params.k) {
            Some(sum) => sum <= usize::MAX - CSP,
            None => false,
        },
        None => false,
    }
}

/// The parameters that are selected among those from number `i` on, where those
/// before are affordable and yield too little: the first ones that yield what
/// is still needed. Where some that come first are too costly, the ones before
/// them, and where none yields enough, the last.
pub open spec fn selected_from(
    ty: LpnType,
    params: Seq<LpnParameters>,
    available: nat,
    additional: nat,
    i: nat,
) -> LpnParameters
    decreases params.len() - i,
{
    if i >= params.len() {
        params.last()
    } else if available < cost(ty, params[i as int]) {
        if i == 0 {
            params[0]
        } else {
            params[i - 1]
        }
    } else if params[i as int].n - cost(ty, params[i as int]) >= additional {
        params[i as int]
    } else {
        selected_from(ty, params, available, additional, i + 1)
    }
}

/// The parameters that are selected for a number of available COTs and a number
/// of COTs that still need to be generated.
pub open spec fn selected(
    ty: LpnType,
    params: Seq<LpnParameters>,
    available: nat,
    additional: nat,
) -> LpnParameters {
    selected_from(ty, params, available, additional, 0)
}

/// A table of parameters of which none costs more than it yields.
pub open spec fn table_wf(ty: LpnType, params: Seq<LpnParameters>) -> bool {
    &&& params.len() > 0
    &&& forall|i: int|
        #![trigger params[i]]
        0 <= i < params.len() ==> costable(ty, params[i]) && cost(ty, params[i]) <= params[i].n
}

/// Selects parameters from a table in ascending order.
pub fn default_parameter_selector(
    ty: LpnType,
    params: &[LpnParameters],
    available: usize,
    additional: usize,
) -> (r: LpnParameters)
    requires
        table_wf(ty, params@),
    ensures
        r == selected(ty, params@, available as nat, additional as nat),
{
    // *Assumes the parameters are in ascending order.*
    let mut last_valid_param: LpnParameters = params[0];
    let mut i: usize = 0;
    while i < params.len()
        invariant
            table_wf(ty, params@),
            i <= params@.len(),
            last_valid_param == if i == 0 {
                params@[0]
            } else {
                params@[i - 1]
            },
            selected(ty, params@, available as nat, additional as nat) == selected_from(
                ty,
                params@,
                available as nat,
                additional as nat,
                i as nat,
            ),
        decreases params@.len() - i,
    {
        let param: LpnParameters = params[i];
        let cost: usize = iteration_cost(ty, param);
        let net: usize = param.n - cost;

        // Only selects params for which we have enough OTs available.
        if available < cost {
            return last_valid_param;
        } else {
            last_valid_param = param;
        }

        // Returns the smallest params that satisfy the additionally requested
        // amount.
        if net >= additional {
            return param;
        }
        i = i + 1;
    }

    // If we reach here, we select the largest parameters.
    last_valid_param
}

/// There is an error, and with uniform noise the indices and the buckets fit.
pub open spec fn workable(ty: LpnType, p: LpnParameters) -> bool {
    &&& p.t > 0
    &&& ty == LpnType::Uniform ==> {
        &&& p.n <= u32::MAX
        &&& 6 * p.n + table_length(p.t as nat) <= usize::MAX
    }
}

/// Returns whether the parameters are workable.
pub fn is_workable(ty: LpnType, params: LpnParameters) -> (r: bool)
    ensures
        r == workable(ty, params),
{
    if params.t == 0 {
        return false;
    }
    match ty {
        LpnType::Uniform => {
            let m: u128 = params.t as u128 + (params.t as u128 + 1) / 2;
            params.n as u128 <= u32::MAX as u128 && 6 * params.n as u128 + m <= usize::MAX as u128
        },
        LpnType::Regular => true,
    }
}

/// The selected parameters are in the table.
proof fn lemma_selected_in(
    ty: LpnType,
    params: Seq<LpnParameters>,
    available: nat,
    additional: nat,
    i: nat,
)
    requires
        0 < params.len(),
        i <= params.len(),
    ensures
        params.contains(selected_from(ty, params, available, additional, i)),
    decreases params.len() - i,
{
    let r = selected_from(ty, params, available, additional, i);
    if i >= params.len() {
        assert(params[params.len() - 1] == r);
    } else if available < cost(ty, params[i as int]) {
        if i == 0 {
            assert(params[0] == r);
        } else {
            assert(params[i - 1] == r);
        }
    } else if params[i as int].n - cost(ty, params[i as int]) >= additional {
        assert(params[i as int] == r);
    } else {
        lemma_selected_in(ty, params, available, additional, i + 1);
    }
}

/// Where the first parameters are affordable, so are the selected ones.
pub proof fn lemma_selected_affordable(
    ty: LpnType,
    params: Seq<LpnParameters>,
    available: nat,
    additional: nat,
)
    requires
        params.len() > 0,
        cost(ty, params[0]) <= available,
    ensures
        cost(ty, selected(ty, params, available, additional)) <= available,
        params.contains(selected(ty, params, available, additional)),
{
    lemma_selected_from(ty, params, available, additional, 0);
    lemma_selected_in(ty, params, available, additional, 0);
}

proof fn lemma_selected_from(
    ty: LpnType,
    params: Seq<LpnParameters>,
    available: nat,
    additional: nat,
    i: nat,
)
    requires
        0 < params.len(),
        i <= params.len(),
        cost(ty, params[0]) <= available,
        i > 0 ==> cost(ty, params[i - 1]) <= available,
    ensures
        cost(ty, selected_from(ty, params, available, additional, i)) <= available,
    decreases params.len() - i,
{
    if i < params.len() && available >= cost(ty, params[i as int]) {
        lemma_selected_from(ty, params, available, additional, i + 1);
    }
}

/// Ferret configuration.
#[derive(Clone, Debug)]
pub struct FerretConfig<S> {
    /// LPN type.
    lpn_type: LpnType,
    /// Whether to reserve bootstrap COTs.
    reserve_bootstrap: bool,
    /// The parameters for the LPN type, in ascending order.
    params: Vec<LpnParameters>,
    /// Selects the parameters in place of the default selector.
    param_selector: Option<S>,
}

/// Builds a configuration.
#[derive(Clone, Debug)]
pub struct FerretConfigBuilder<S> {
    config: FerretConfig<S>,
}

impl<S> FerretConfigBuilder<S> {
    /// The configuration so far.
    pub closed spec fn so_far(self) -> FerretConfig<S> {
        self.config
    }

    /// Sets the LPN type.
    pub fn lpn_type(self, lpn_type: LpnType) -> (r: Self)
        ensures
            r.so_far().noise() == lpn_type,
            r.so_far().reserves() == self.so_far().reserves(),
            r.so_far().table() == self.so_far().table(),
            r.so_far().selector() == self.so_far().selector(),
    {
        FerretConfigBuilder {
            config: FerretConfig {
                lpn_type,
                reserve_bootstrap: self.config.reserve_bootstrap,
                params: self.config.params,
                param_selector: self.config.param_selector,
            },
        }
    }

    /// Sets whether to reserve bootstrap COTs.
    pub fn reserve_bootstrap(self, reserve_bootstrap: bool) -> (r: Self)
        ensures
            r.so_far().noise() == self.so_far().noise(),
            r.so_far().reserves() == reserve_bootstrap,
            r.so_far().table() == self.so_far().table(),
            r.so_far().selector() == self.so_far().selector(),
    {
        FerretConfigBuilder {
            config: FerretConfig {
                lpn_type: self.config.lpn_type,
                reserve_bootstrap,
                params: self.config.params,
                param_selector: self.config.param_selector,
            },
        }
    }

    /// Configures the LPN parameter selector.
    ///
    /// The provided function must have the following signature:
    ///
    /// `(LpnType, available, additional) -> LpnParameters`
    ///
    /// where `available` is the current number of available COTs and
    /// `additional` is the number of COTs that still need to be generated.
    pub fn param_selector(self, f: S) -> (r: Self)
        ensures
            r.so_far().noise() == self.so_far().noise(),
            r.so_far().reserves() == self.so_far().reserves(),
            r.so_far().table() == self.so_far().table(),
            r.so_far().selector() == Some(f),
    {
        FerretConfigBuilder {
            config: FerretConfig {
                lpn_type: self.config.lpn_type,
                reserve_bootstrap: self.config.reserve_bootstrap,
                params: self.config.params,
                param_selector: Some(f),
            },
        }
    }

    /// Builds the configuration.
    pub fn build(self) -> (r: FerretConfig<S>)
        ensures
            r == self.so_far(),
    {
        self.config
    }
}

impl<S> FerretConfig<S> {
    /// The LPN type.
    pub closed spec fn noise(self) -> LpnType {
        self.lpn_type
    }

    /// Bootstrap COTs are reserved.
    pub closed spec fn reserves(self) -> bool {
        self.reserve_bootstrap
    }

    /// The parameters for the LPN type.
    pub closed spec fn table(self) -> Seq<LpnParameters> {
        self.params@
    }

    /// The selector that replaces the default one.
    pub closed spec fn selector(self) -> Option<S> {
        self.param_selector
    }

    /// The table is one for the LPN type.
    pub open spec fn wf(self) -> bool {
        table_wf(self.noise(), self.table())
    }

    /// The cost of a bootstrap iteration.
    pub open spec fn bootstrap(self) -> nat {
        cost(self.noise(), self.table()[0])
    }

    /// How many of `stock` COTs can be handed out.
    pub open spec fn spare(self, stock: nat) -> nat {
        if !self.reserves() {
            stock
        } else if stock < self.bootstrap() {
            0
        } else {
            (stock - self.bootstrap()) as nat
        }
    }

    /// How many of `wanted` COTs are missing where there are `stock`.
    pub open spec fn lacking(self, wanted: nat, stock: nat) -> nat {
        if wanted < self.spare(stock) {
            0
        } else {
            (wanted - self.spare(stock)) as nat
        }
    }

    /// Returns a configuration for a table of parameters: uniform noise, and
    /// bootstrap COTs are reserved.
    pub fn new(params: Vec<LpnParameters>) -> (r: Self)
        ensures
            r.noise() == LpnType::Uniform,
            r.reserves(),
            r.table() == params@,
            r.selector() is None,
    {
        FerretConfig {
            lpn_type: LpnType::Uniform,
            reserve_bootstrap: true,
            params,
            param_selector: None,
        }
    }

    /// Returns a new `FerretConfigBuilder`.
    pub fn builder(params: Vec<LpnParameters>) -> (r: FerretConfigBuilder<S>)
        ensures
            r.so_far().noise() == LpnType::Uniform,
            r.so_far().reserves(),
            r.so_far().table() == params@,
            r.so_far().selector() is None,
    {
        FerretConfigBuilder { config: FerretConfig::new(params) }
    }

    /// Returns whether the table is one for the LPN type, with parameters that are
    /// all workable.
    pub fn is_valid(&self) -> (r: bool)
        ensures
            r == (self.wf() && forall|i: int|
                0 <= i < self.table().len() ==> workable(self.noise(), #[trigger] self.table()[i])),
    {
        if self.params.len() == 0 {
            return false;
        }
        let mut i: usize = 0;
        while i < self.params.len()
            invariant
                i <= self.params@.len(),
                forall|j: int|
                    #![trigger self.params@[j]]
                    0 <= j < i ==> {
                        &&& costable(self.lpn_type, self.params@[j])
                        &&& cost(self.lpn_type, self.params@[j]) <= self.params@[j].n
                        &&& workable(self.lpn_type, self.params@[j])
                    },
            decreases self.params@.len() - i,
        {
            let p: LpnParameters = self.params[i];
            assert(self.table()[i as int] == p);
            if !is_costable(self.lpn_type, p) || !is_workable(self.lpn_type, p) {
                return false;
            }
            if iteration_cost(self.lpn_type, p) > p.n {
                return false;
            }
            i = i + 1;
        }
        true
    }

    /// Returns `true` if bootstrap COTs should be reserved.
    pub fn reserve_bootstrap(&self) -> (r: bool)
        ensures
            r == self.reserves(),
    {
        self.reserve_bootstrap
    }

    /// Returns the LPN type.
    pub fn lpn_type(&self) -> (r: LpnType)
        ensures
            r == self.noise(),
    {
        self.lpn_type
    }

    /// Returns the cost of a bootstrap iteration.
    pub fn bootstrap_cost(&self) -> (r: usize)
        requires
            self.wf(),
        ensures
            r == self.bootstrap(),
    {
        iteration_cost(self.lpn_type, self.params[0])
    }

    /// Returns how many of `stock` COTs can be handed out.
    pub(crate) fn spared(&self, stock: usize) -> (r: usize)
        requires
            self.wf(),
        ensures
            r == self.spare(stock as nat),
    {
        if self.reserve_bootstrap {
            stock.saturating_sub(self.bootstrap_cost())
        } else {
            stock
        }
    }
}

impl<S: Fn((LpnType, usize, usize)) -> LpnParameters> FerretConfig<S> {
    /// The selector accepts every argument and selects workable parameters.
    pub open spec fn selects(self) -> bool {
        match self.selector() {
            Some(f) => {
                &&& forall|a: (LpnType, usize, usize)| #[trigger] call_requires(f, (a,))
                &&& forall|a: (LpnType, usize, usize), p: LpnParameters| #[trigger]
                    call_ensures(f, (a,), p) ==> workable(self.noise(), p)
            },
            None => forall|i: int|
                0 <= i < self.table().len() ==> workable(self.noise(), #[trigger] self.table()[i]),
        }
    }

    /// These parameters may be selected.
    pub open spec fn may_select(self, available: usize, additional: usize, p: LpnParameters) -> bool {
        match self.selector() {
            Some(f) => call_ensures(f, ((self.noise(), available, additional),), p),
            None => p == selected(
                self.noise(),
                self.table(),
                available as nat,
                additional as nat,
            ),
        }
    }

    /// Selects the parameters of an iteration.
    pub fn select_params(&self, available: usize, additional: usize) -> (r: LpnParameters)
        requires
            self.wf(),
            self.selects(),
        ensures
            self.may_select(available, additional, r),
            workable(self.noise(), r),
    {
        proof {
            lemma_selected_in(
                self.noise(),
                self.table(),
                available as nat,
                additional as nat,
                0,
            );
        }
        match &self.param_selector {
            Some(f) => f((self.lpn_type, available, additional)),
            None => default_parameter_selector(
                self.lpn_type,
                self.params.as_slice(),
                available,
                additional,
            ),
        }
    }
}

/// The parameters that are selected are the first ones in the table whose
/// iteration yields what is asked for, if those before them and they themselves
/// can be afforded. If none in the part of the table that can be afforded yields
/// that much, they are the last ones of this part; if not even the first ones can
/// be afforded, they are these.
pub proof fn lemma_selected(
    ty: LpnType,
    params: Seq<LpnParameters>,
    available: nat,
    additional: nat,
    i: int,
)
    requires
        0 <= i < params.len(),
        forall|j: int|
            0 <= j < i ==> cost(ty, #[trigger] params[j]) <= available && params[j].n < additional
                + cost(ty, params[j]),
    ensures
        cost(ty, params[i]) <= available && params[i].n >= additional + cost(ty, params[i])
            ==> selected(ty, params, available, additional) == params[i],
        cost(ty, params[i]) <= available && i + 1 == params.len() ==> selected(
            ty,
            params,
            available,
            additional,
        ) == params[i],
        cost(ty, params[i]) > available && i > 0 ==> selected(ty, params, available, additional)
            == params[i - 1],
        cost(ty, params[i]) > available && i == 0 ==> selected(ty, params, available, additional)
            == params[0],
{
    lemma_selected_skip(ty, params, available, additional, 0, i);
    if i + 1 == params.len() {
        assert(selected_from(ty, params, available, additional, (i + 1) as nat) == params[i]);
    }
}

proof fn lemma_selected_skip(
    ty: LpnType,
    params: Seq<LpnParameters>,
    available: nat,
    additional: nat,
    k: nat,
    i: int,
)
    requires
        0 <= k <= i < params.len(),
        forall|j: int|
            0 <= j < i ==> cost(ty, #[trigger] params[j]) <= available && params[j].n < additional
                + cost(ty, params[j]),
    ensures
        selected_from(ty, params, available, additional, k) == selected_from(
            ty,
            params,
            available,
            additional,
            i as nat,
        ),
    decreases i - k,
{
    if k < i {
        assert(cost(ty, params[k as int]) <= available);
        lemma_selected_skip(ty, params, available, additional, k + 1, i);
    }
}

/// What an iteration with regular noise costs: for each of the errors the
/// logarithm of the length of its part of the output, the length of the input,
/// and 128 for the check.
pub proof fn lemma_cost_regular(p: LpnParameters, e: nat)
    requires
        p.t > 0,
        p.n == p.t * pow2(e),
    ensures
        cost(LpnType::Regular, p) == p.t * e + p.k + 128,
{
    vstd::arithmetic::div_mod::lemma_div_multiples_vanish(pow2(e) as int, p.t as int);
    assert(p.n / p.t == pow2(e));
    lemma_is_up(e);
}

/// How many are lacking: those with which the stock, but for what is held back for
/// the next iteration, covers what is wanted. Of a stock that holds less than that
/// nothing is counted.
pub proof fn lemma_lacking<S>(config: FerretConfig<S>, wanted: nat, stock: nat, more: nat)
    ensures
        !config.reserves() ==> (more >= config.lacking(wanted, stock) <==> more + stock >= wanted),
        config.reserves() && stock >= config.bootstrap() ==> (more >= config.lacking(wanted, stock)
            <==> more + stock >= wanted + config.bootstrap()),
        config.reserves() && stock < config.bootstrap() ==> config.lacking(wanted, stock)
            == wanted,
{
}

} // verus!
