//! The strategies that break ties between equally feasible plans.
use vstd::prelude::*;
use crate::text::chars_of;

verus! {

/// How the solver chooses among feasible plans.
#[derive(Debug, Clone, Copy, PartialEq, Eq, Structural)]
pub enum Strategy {
    MinimoEsfuerzo,
    MaximoSeguridad,
    PuntoMedio,
    MinimoVarianza,
}

/// The name of a strategy.
pub open spec fn strategy_name(s: Strategy) -> Seq<char> {
    match s {
        Strategy::MinimoEsfuerzo => "minimo_esfuerzo"@,
        Strategy::MaximoSeguridad => "maximo_seguridad"@,
        Strategy::PuntoMedio => "punto_medio"@,
        Strategy::MinimoVarianza => "minimo_varianza"@,
    }
}

/// The strategy that a name selects; any other text selects `PuntoMedio`.
pub open spec fn spec_strategy_from(s: Seq<char>) -> Strategy {
    if s == "minimo_esfuerzo"@ {
        Strategy::MinimoEsfuerzo
    } else if s == "maximo_seguridad"@ {
        Strategy::MaximoSeguridad
    } else if s == "minimo_varianza"@ {
        Strategy::MinimoVarianza
    } else {
        Strategy::PuntoMedio
    }
}

fn str_eq(a: &str, b: &str) -> (r: bool)
    ensures
        r == (a@ == b@),
{
    let x = chars_of(a);
    let y = chars_of(b);
    if x.len() != y.len() {
        return false;
    }
    let mut i: usize = 0;
    while i < x.len()
        invariant
            i <= x.len() == y.len(),
            x@ == a@,
            y@ == b@,
            forall|k: int| 0 <= k < i ==> x@[k] == y@[k],
        decreases x.len() - i,
    {
        if x[i] != y[i] {
            assert(x@[i as int] != y@[i as int]);
            return false;
        }
        i = i + 1;
    }
    assert(x@ =~= y@);
    true
}

impl Strategy {
    /// The strategy that a name selects; any other text selects `PuntoMedio`.
    pub fn from_str(s: &str) -> (r: Self)
        ensures
            r == spec_strategy_from(s@),
    {
        if str_eq(s, "minimo_esfuerzo") {
            Strategy::MinimoEsfuerzo
        } else if str_eq(s, "maximo_seguridad") {
            Strategy::MaximoSeguridad
        } else if str_eq(s, "minimo_varianza") {
            Strategy::MinimoVarianza
        } else {
            Strategy::PuntoMedio
        }
    }

    /// The name of the strategy.
    pub fn name(&self) -> (r: &'static str)
        ensures
            r@ == strategy_name(*self),
    {
        match self {
            Strategy::MinimoEsfuerzo => "minimo_esfuerzo",
            Strategy::MaximoSeguridad => "maximo_seguridad",
            Strategy::PuntoMedio => "punto_medio",
            Strategy::MinimoVarianza => "minimo_varianza",
        }
    }
}

} // verus!
