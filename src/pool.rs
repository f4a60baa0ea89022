//! Settings of the connection pool, checked before a pool is made.
use vstd::prelude::*;

use std::time::Duration;

use crate::config::{config_problem, LdapConfig};
use crate::errors::HeraclesError;
use crate::text::push_decimal;

verus! {

/// Makes connections for the pool from one set of settings.
#[derive(Debug)]
pub struct LdapConnectionManager {
    pub config: LdapConfig,
}

impl LdapConnectionManager {
    /// A manager for connections made with `config`.
    pub fn new(config: LdapConfig) -> (r: Self)
        ensures
            r.config.uri@ == config.uri@ && r.config.pool_size == config.pool_size,
    {
        LdapConnectionManager { config }
    }
}

/// What a pool is made from: the checked settings and the pool's limits.
#[derive(Debug)]
pub struct PoolSettings {
    pub config: LdapConfig,
    pub max_size: usize,
    pub wait_timeout: Option<Duration>,
    pub create_timeout: Option<Duration>,
    pub recycle_timeout: Option<Duration>,
}

/// Settings of a connection pool under construction.
#[derive(Debug)]
pub struct LdapPoolBuilder {
    config: LdapConfig,
    max_size: usize,
    wait_timeout: Option<Duration>,
    create_timeout: Option<Duration>,
    recycle_timeout: Option<Duration>,
}

impl LdapPoolBuilder {
    /// The largest number of connections.
    pub closed spec fn max_size_spec(&self) -> usize {
        self.max_size
    }

    /// The settings the connections are made with.
    pub closed spec fn config_spec(&self) -> LdapConfig {
        self.config
    }

    /// Timeouts for waiting, creating and recycling, if set.
    pub closed spec fn timeouts(&self) -> (Option<Duration>, Option<Duration>, Option<Duration>) {
        (self.wait_timeout, self.create_timeout, self.recycle_timeout)
    }

    /// A pool of `config.pool_size` connections, waiting up to 30 seconds for one,
    /// 10 seconds to create one and 5 to recycle one.
    pub fn new(config: LdapConfig) -> (r: Self)
        ensures
            r.max_size_spec() == config.pool_size,
            r.config_spec() == config,
            r.timeouts().0 is Some && r.timeouts().1 is Some && r.timeouts().2 is Some,
    {
        let max_size = config.pool_size;
        LdapPoolBuilder {
            config,
            max_size,
            wait_timeout: Some(Duration::from_secs(30)),
            create_timeout: Some(Duration::from_secs(10)),
            recycle_timeout: Some(Duration::from_secs(5)),
        }
    }

    /// The same pool with at most `size` connections.
    pub fn max_size(self, size: usize) -> (r: Self)
        ensures
            r.max_size_spec() == size,
            r.config_spec() == self.config_spec(),
            r.timeouts() == self.timeouts(),
    {
        let mut r = self;
        r.max_size = size;
        r
    }

    /// The same pool waiting at most `timeout` for a connection.
    pub fn wait_timeout(self, timeout: Duration) -> (r: Self)
        ensures
            r.timeouts() == (Some(timeout), self.timeouts().1, self.timeouts().2),
            r.max_size_spec() == self.max_size_spec(),
            r.config_spec() == self.config_spec(),
    {
        let mut r = self;
        r.wait_timeout = Some(timeout);
        r
    }

    /// The same pool taking at most `timeout` to create a connection.
    pub fn create_timeout(self, timeout: Duration) -> (r: Self)
        ensures
            r.timeouts() == (self.timeouts().0, Some(timeout), self.timeouts().2),
            r.max_size_spec() == self.max_size_spec(),
            r.config_spec() == self.config_spec(),
    {
        let mut r = self;
        r.create_timeout = Some(timeout);
        r
    }

    /// The same pool taking at most `timeout` to recycle a connection.
    pub fn recycle_timeout(self, timeout: Duration) -> (r: Self)
        ensures
            r.timeouts() == (self.timeouts().0, self.timeouts().1, Some(timeout)),
            r.max_size_spec() == self.max_size_spec(),
            r.config_spec() == self.config_spec(),
    {
        let mut r = self;
        r.recycle_timeout = Some(timeout);
        r
    }

    /// The largest number of connections.
    pub fn get_max_size(&self) -> (r: usize)
        ensures
            r == self.max_size_spec(),
    {
        self.max_size
    }

    /// The checked settings to make the pool from; the settings' first problem, as
    /// `LdapConfig::validate` reports it, otherwise.
    pub fn settings(self) -> (r: Result<PoolSettings, HeraclesError>)
        ensures
            match config_problem(
                self.config_spec().uri@,
                self.config_spec().base_dn@,
                self.config_spec().bind_dn@,
                self.config_spec().pool_size,
            ) {
                None => r matches Ok(s) && s.config == self.config_spec() && s.max_size
                    == self.max_size_spec() && (s.wait_timeout, s.create_timeout, s.recycle_timeout)
                    == self.timeouts(),
                Some(m) => r matches Err(HeraclesError::Configuration(e)) && e@ == m,
            },
    {
        match self.config.validate() {
            Ok(()) => Ok(
                PoolSettings {
                    config: self.config,
                    max_size: self.max_size,
                    wait_timeout: self.wait_timeout,
                    create_timeout: self.create_timeout,
                    recycle_timeout: self.recycle_timeout,
                },
            ),
            Err(e) => Err(e),
        }
    }
}

/// How busy a pool is.
#[derive(Debug, Clone)]
pub struct PoolStatus {
    /// Largest number of connections.
    pub max_size: usize,
    /// Connections now open.
    pub size: usize,
    /// Open connections not in use.
    pub available: usize,
    /// Tasks waiting for a connection.
    pub waiting: usize,
}

impl PoolStatus {
    /// "Pool[max=M, size=S, available=A, waiting=W]".
    pub fn to_string(&self) -> (r: String)
        ensures
            r@ == "Pool[max="@ + crate::text::decimal(self.max_size as nat) + ", size="@
                + crate::text::decimal(self.size as nat) + ", available="@ + crate::text::decimal(
                self.available as nat,
            ) + ", waiting="@ + crate::text::decimal(self.waiting as nat) + "]"@,
    {
        let mut r = String::from_str("Pool[max=");
        push_decimal(&mut r, self.max_size as u64);
        r.append(", size=");
        push_decimal(&mut r, self.size as u64);
        r.append(", available=");
        push_decimal(&mut r, self.available as u64);
        r.append(", waiting=");
        push_decimal(&mut r, self.waiting as u64);
        r.append("]");
        r
    }
}

} // verus!
