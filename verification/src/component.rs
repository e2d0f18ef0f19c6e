//! Components `ℭΓ = (d, p, e)`.

use vstd::prelude::*;

use crate::effect::EffectIter;
use crate::env::{Context, Env};
use crate::keyset::KeySet;
use crate::value::Value;

verus! {

/// The effect program a component's effect function builds: the iterator
/// whose steps the runtime drives.
pub struct Effects {
    /// The iterator.
    pub iter: Box<dyn EffectIter>,
}

impl Effects {
    /// Wraps an iterator.
    pub fn new(iter: Box<dyn EffectIter>) -> Effects {
        Effects { iter }
    }
}

/// A component `(d, p, e)`.
///
/// - `d`: the coeffect spec ([`Component::inject`]), the keys it depends on;
/// - `p`: the provision ([`Component::provide`]), the keys it may bind;
/// - `e`: the effect function ([`Component::apply`]): builds, in `ctx` and
///   for `config`, the iterator whose steps perform the component's effects.
///   It may instantiate children under `ctx` through [`Env::register`].
pub trait Component {
    /// The coeffect spec `d`.
    fn inject(&self) -> KeySet;

    /// The provision `p`.
    fn provide(&self) -> KeySet;

    /// The effect function `e(config)` applied in `ctx`.
    fn apply(&self, ctx: Context, config: &Value, env: &mut Env) -> (r: Effects);
}

} // verus!
