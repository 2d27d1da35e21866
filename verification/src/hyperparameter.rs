//! Hyperparameter definitions and parameter configurations.
//!
//! Values are carried as they are (of type `V`): building a configuration from defaults
//! and reading its values back only moves them.

use vstd::prelude::*;

verus! {

/// A hyperparameter definition.
pub struct Hyperparameter<V> {
    pub name: String,
    pub min: V,
    pub max: V,
    pub default: V,
}

/// A parameter configuration: maps parameter names to values.
pub struct AgentConfig<V> {
    pub params: Vec<(String, V)>,
}

impl<V: Copy> AgentConfig<V> {
    /// Create from a list of hyperparameters with default values: one entry per
    /// hyperparameter, in order, holding its name and its default.
    pub fn defaults(hyperparams: &[Hyperparameter<V>]) -> (config: Self)
        ensures
            config.params.len() == hyperparams.len(),
            forall|i: int| 0 <= i < hyperparams.len() ==> {
                &&& (#[trigger] config.params@[i]).0@ == hyperparams@[i].name@
                &&& config.params@[i].1 == hyperparams@[i].default
            },
    {
        let mut params: Vec<(String, V)> = Vec::new();
        for i in 0..hyperparams.len()
            invariant
                params.len() == i,
                forall|j: int| 0 <= j < i ==> {
                    &&& (#[trigger] params@[j]).0@ == hyperparams@[j].name@
                    &&& params@[j].1 == hyperparams@[j].default
                },
        {
            let h = &hyperparams[i];
            params.push((h.name.clone(), h.default));
        }
        AgentConfig { params }
    }

    /// The values of the configuration, in order.
    pub fn to_vector(&self) -> (values: Vec<V>)
        ensures
            values.len() == self.params.len(),
            forall|i: int| 0 <= i < values.len() ==> #[trigger] values@[i] == self.params@[i].1,
    {
        let mut values: Vec<V> = Vec::new();
        for i in 0..self.params.len()
            invariant
                values.len() == i,
                i <= self.params.len(),
                forall|j: int| 0 <= j < i ==> #[trigger] values@[j] == self.params@[j].1,
        {
            values.push(self.params[i].1);
        }
        values
    }
}

} // verus!
