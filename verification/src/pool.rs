//! A module that shares a database connection pool.
//!
//! The pool itself is an external resource: the host constructs it and
//! runs any pending migrations, then hands it in as a tagged value. The
//! module stores it as a directly provided value and exports it, so that
//! every importer resolves the one shared pool.

use crate::config::{get_prop, prop_lookup, prop_var_name, Prop};
use crate::graph::Value;
use crate::module::Module;
use vstd::prelude::*;

verus! {

/// The factory of a pool-sharing module.
pub struct DieselPoolModule;

/// Why a pool cannot be assembled.
#[derive(Clone, Copy, PartialEq, Eq, Structural, Debug)]
pub enum PoolConfigError {
    MissingConnectionUrl,
}

impl DieselPoolModule {
    /// A module that directly provides the given pool and exports it
    /// under its tag, and declares nothing else.
    pub fn get_module<D>(pool: Value<D>) -> (m: Module<D>)
        ensures
            m.spec_values() == seq![pool],
            m.spec_exports() == seq![pool.key],
            m.spec_entities() == seq![pool.key],
            m.spec_imports().len() == 0,
            m.spec_providers().len() == 0,
            m.spec_controllers().len() == 0,
    {
        Module::new().export_val(&pool).provide_value(pool)
    }

    /// The configured database connection url: the `diesel` section's
    /// `connection_url` property. A missing url is a wiring defect: pool
    /// assembly must abort on the error rather than proceed.
    pub fn connection_url(props: &Vec<Prop>) -> (r: Result<String, PoolConfigError>)
        ensures
            match r {
                Ok(v) => prop_lookup(props@, prop_var_name("diesel"@, "connection_url"@)) == Some(
                    v@,
                ),
                Err(e) => prop_lookup(props@, prop_var_name("diesel"@, "connection_url"@)) is None
                    && e == PoolConfigError::MissingConnectionUrl,
            },
    {
        match get_prop(props, "diesel", "connection_url") {
            Some(v) => Ok(v),
            None => Err(PoolConfigError::MissingConnectionUrl),
        }
    }

    /// The pool size to use, given what the host parsed from the `diesel`
    /// section's `max_pool_size` property: the configured size, or ten
    /// when it is not configured or does not parse.
    pub fn max_pool_size(parsed: Option<u32>) -> (n: u32)
        ensures
            n == match parsed {
                Some(v) => v,
                None => 10u32,
            },
    {
        match parsed {
            Some(v) => v,
            None => 10,
        }
    }
}

} // verus!
