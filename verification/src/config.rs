//! Agent configuration: the sections of the configuration file, their
//! defaults, and the checks on memory sizes.
use vstd::prelude::*;
use vstd::string::{StrSliceExecFns, StringExecFns};

verus! {

pub fn default_listen_addr() -> (s: String)
    ensures
        s@ == "0.0.0.0:50051"@,
{
    String::from_str("0.0.0.0:50051")
}

pub fn default_log_level() -> (s: String)
    ensures
        s@ == "info"@,
{
    String::from_str("info")
}

pub fn default_log_format() -> (s: String)
    ensures
        s@ == "text"@,
{
    String::from_str("text")
}

/// 1 GiB.
pub fn default_total_size() -> (n: usize)
    ensures
        n == 1024 * 1024 * 1024,
{
    1024 * 1024 * 1024
}

/// 256 KiB.
pub fn default_block_size() -> (n: usize)
    ensures
        n == 256 * 1024,
{
    256 * 1024
}

pub fn default_etcd_endpoints() -> (v: Vec<String>)
    ensures
        v@.len() == 1,
        v@[0]@ == "http://localhost:2379"@,
{
    let mut v: Vec<String> = Vec::new();
    v.push(String::from_str("http://localhost:2379"));
    v
}

pub fn default_key_prefix() -> (s: String)
    ensures
        s@ == "/cmx/blocks"@,
{
    String::from_str("/cmx/blocks")
}

pub fn default_ttl_seconds() -> (n: u64)
    ensures
        n == 3600,
{
    3600
}

pub fn default_lease_ttl_seconds() -> (n: u64)
    ensures
        n == 30,
{
    30
}

pub fn default_transport_backend() -> (s: String)
    ensures
        s@ == "mock"@,
{
    String::from_str("mock")
}

pub fn default_metrics_addr() -> (s: String)
    ensures
        s@ == "0.0.0.0:9090"@,
{
    String::from_str("0.0.0.0:9090")
}

pub fn default_vnodes_per_node() -> (n: u32)
    ensures
        n == 128,
{
    128
}

/// The `[agent]` section.
#[derive(Debug)]
pub struct AgentSection {
    /// Unique node identifier. Taken from the environment or the hostname if empty.
    pub node_id: String,
    /// gRPC listen address.
    pub listen_addr: String,
    /// Log level.
    pub log_level: String,
    /// Log format: "text" or "json".
    pub log_format: String,
    /// Maximum gRPC requests per second (0 = no limit).
    pub max_requests_per_second: u32,
}

impl Default for AgentSection {
    fn default() -> (s: Self)
        ensures
            s.node_id@.len() == 0,
            s.listen_addr@ == "0.0.0.0:50051"@,
            s.log_level@ == "info"@,
            s.log_format@ == "text"@,
            s.max_requests_per_second == 0,
    {
        Self {
            node_id: String::new(),
            listen_addr: default_listen_addr(),
            log_level: default_log_level(),
            log_format: default_log_format(),
            max_requests_per_second: 0,
        }
    }
}

impl AgentSection {
    /// Resolve the node id: the configured one, else the one from the
    /// environment, else the hostname.
    pub fn resolve_node_id(&mut self, env_node_id: Option<String>, hostname: String)
        ensures
            old(self).node_id@.len() > 0 ==> final(self).node_id == old(self).node_id,
            old(self).node_id@.len() == 0 ==> final(self).node_id == (match env_node_id {
                Some(id) => id,
                None => hostname,
            }),
            final(self).listen_addr == old(self).listen_addr,
            final(self).log_level == old(self).log_level,
            final(self).log_format == old(self).log_format,
            final(self).max_requests_per_second == old(self).max_requests_per_second,
    {
        if self.node_id.as_str().is_empty() {
            match env_node_id {
                Some(id) => {
                    self.node_id = id;
                },
                None => {
                    self.node_id = hostname;
                },
            }
        }
    }
}

/// The `[metadata]` section.
#[derive(Debug)]
pub struct MetadataSection {
    /// etcd endpoints.
    pub etcd_endpoints: Vec<String>,
    /// Key prefix for metadata in etcd.
    pub key_prefix: String,
    /// TTL for metadata entries in seconds.
    pub ttl_seconds: u64,
    /// Lease TTL for node registration in seconds.
    pub lease_ttl_seconds: u64,
}

impl Default for MetadataSection {
    fn default() -> (s: Self)
        ensures
            s.etcd_endpoints@.len() == 1,
            s.etcd_endpoints@[0]@ == "http://localhost:2379"@,
            s.key_prefix@ == "/cmx/blocks"@,
            s.ttl_seconds == 3600,
            s.lease_ttl_seconds == 30,
    {
        Self {
            etcd_endpoints: default_etcd_endpoints(),
            key_prefix: default_key_prefix(),
            ttl_seconds: default_ttl_seconds(),
            lease_ttl_seconds: default_lease_ttl_seconds(),
        }
    }
}

/// The `[transport]` section.
#[derive(Debug)]
pub struct TransportSection {
    /// Transport backend: "nixl" or "mock".
    pub backend: String,
}

impl Default for TransportSection {
    fn default() -> (s: Self)
        ensures
            s.backend@ == "mock"@,
    {
        Self { backend: default_transport_backend() }
    }
}

/// The `[metrics]` section.
#[derive(Debug)]
pub struct MetricsSection {
    /// Prometheus metrics listen address.
    pub listen_addr: String,
}

impl Default for MetricsSection {
    fn default() -> (s: Self)
        ensures
            s.listen_addr@ == "0.0.0.0:9090"@,
    {
        Self { listen_addr: default_metrics_addr() }
    }
}

/// The `[placement]` section.
#[derive(Debug)]
pub struct PlacementSection {
    /// Number of virtual nodes per physical node in the hash ring.
    pub vnodes_per_node: u32,
}

impl Default for PlacementSection {
    fn default() -> (s: Self)
        ensures
            s.vnodes_per_node == 128,
    {
        Self { vnodes_per_node: default_vnodes_per_node() }
    }
}

/// The `[tls]` section.
#[derive(Debug)]
pub struct TlsSection {
    /// Enable TLS.
    pub enabled: bool,
    /// Path to PEM certificate file.
    pub cert_path: String,
    /// Path to PEM private key file.
    pub key_path: String,
    /// Path to CA certificate for client verification (mTLS).
    pub ca_cert_path: String,
}

impl Default for TlsSection {
    fn default() -> (s: Self)
        ensures
            !s.enabled,
            s.cert_path@.len() == 0,
            s.key_path@.len() == 0,
            s.ca_cert_path@.len() == 0,
    {
        Self { enabled: false, cert_path: String::new(), key_path: String::new(), ca_cert_path: String::new() }
    }
}

/// A problem with the configured memory sizes.
#[derive(Debug, Clone, Copy, PartialEq, Eq)]
pub enum SizeProblem {
    /// `memory.block_size` must be > 0.
    ZeroBlockSize,
    /// `memory.total_size` must be > 0.
    ZeroTotalSize,
    /// `memory.total_size` must be divisible by `memory.block_size`.
    TotalNotDivisible { total_size: usize, block_size: usize },
}

/// All problems with a pool of `total_size` bytes in blocks of
/// `block_size` bytes, in this order: zero block size, zero total size,
/// total not divisible by block size (checked only for a nonzero block size).
pub fn memory_size_problems(total_size: usize, block_size: usize) -> (v: Vec<SizeProblem>)
    ensures
        v@ == (if block_size == 0 { seq![SizeProblem::ZeroBlockSize] } else { Seq::empty() })
            + (if total_size == 0 { seq![SizeProblem::ZeroTotalSize] } else { Seq::empty() })
            + (if block_size > 0 && total_size % block_size != 0 {
            seq![SizeProblem::TotalNotDivisible { total_size, block_size }]
        } else {
            Seq::empty()
        }),
{
    let mut v: Vec<SizeProblem> = Vec::new();
    if block_size == 0 {
        v.push(SizeProblem::ZeroBlockSize);
    }
    if total_size == 0 {
        v.push(SizeProblem::ZeroTotalSize);
    }
    if block_size > 0 && total_size % block_size != 0 {
        v.push(SizeProblem::TotalNotDivisible { total_size, block_size });
    }
    proof {
        let a: Seq<SizeProblem> = if block_size == 0 { seq![SizeProblem::ZeroBlockSize] } else { Seq::empty() };
        let b: Seq<SizeProblem> = if total_size == 0 { seq![SizeProblem::ZeroTotalSize] } else { Seq::empty() };
        let c: Seq<SizeProblem> = if block_size > 0 && total_size % block_size != 0 {
            seq![SizeProblem::TotalNotDivisible { total_size, block_size }]
        } else {
            Seq::empty()
        };
        assert(v@ =~= a + b + c);
    }
    v
}

/// The decimal digits of `n`.
pub open spec fn decimal_text(n: nat) -> Seq<char>
    decreases n,
{
    if n < 10 {
        seq![(('0' as int) + n) as char]
    } else {
        decimal_text(n / 10).push((('0' as int) + n % 10) as char)
    }
}

/// The text of the digit `d` (below 10).
fn digit_str(d: usize) -> (s: &'static str)
    requires
        d < 10,
    ensures
        s@ == seq![(('0' as int) + d) as char],
{
    let table = "0123456789";
    proof {
        reveal_strlit("0123456789");
    }
    let s = table.substring_char(d, d + 1);
    assert(s@ =~= seq![(('0' as int) + d) as char]);
    s
}

/// Append the decimal digits of `n` to `s`.
pub fn push_decimal(s: &mut String, n: usize)
    ensures
        final(s)@ == old(s)@ + decimal_text(n as nat),
    decreases n,
{
    if n < 10 {
        s.append(digit_str(n));
    } else {
        push_decimal(s, n / 10);
        s.append(digit_str(n % 10));
        assert(old(s)@ + decimal_text(n as nat) =~= old(s)@ + decimal_text((n / 10) as nat) + seq![
            (('0' as int) + n % 10) as char,
        ]);
    }
}

/// The message reported for a problem with the memory sizes.
pub open spec fn size_problem_text(p: SizeProblem) -> Seq<char> {
    match p {
        SizeProblem::ZeroBlockSize => "memory.block_size must be > 0"@,
        SizeProblem::ZeroTotalSize => "memory.total_size must be > 0"@,
        SizeProblem::TotalNotDivisible { total_size, block_size } => "memory.total_size ("@ + decimal_text(
            total_size as nat,
        ) + ") must be divisible by memory.block_size ("@ + decimal_text(block_size as nat) + ")"@,
    }
}

impl SizeProblem {
    /// The message reported for this problem.
    pub fn message(&self) -> (m: String)
        ensures
            m@ == size_problem_text(*self),
    {
        match self {
            SizeProblem::ZeroBlockSize => String::from_str("memory.block_size must be > 0"),
            SizeProblem::ZeroTotalSize => String::from_str("memory.total_size must be > 0"),
            SizeProblem::TotalNotDivisible { total_size, block_size } => {
                let mut m = String::from_str("memory.total_size (");
                push_decimal(&mut m, *total_size);
                m.append(") must be divisible by memory.block_size (");
                push_decimal(&mut m, *block_size);
                m.append(")");
                m
            },
        }
    }
}

} // verus!
