//! NUMA topology modelling and thread-placement policy: parsing of the
//! kernel's per-node `cpulist` and `meminfo` texts, and the static mapping
//! of well-known services to nodes by topology cardinality.
//!
//! Discovery reads `/sys`, and binding calls into the operating system;
//! both happen outside this library, which receives the file texts and
//! hands back parsed nodes and placement decisions.

use vstd::prelude::*;

use crate::errors::EngineError;
use crate::numeric::bytes_eq;
use vstd::string::StringSliceAdditionalSpecFns;
use vstd::string::StringExecFns;
use vstd::string::is_ascii;

verus! {

/// Decimal digit bytes.
pub open spec fn is_digit(b: u8) -> bool {
    0x30 <= b <= 0x39
}

/// A run of bytes is a well-formed decimal number: non-empty, digits only.
pub open spec fn valid_digits(s: Seq<u8>) -> bool {
    s.len() >= 1 && forall|i: int| 0 <= i < s.len() ==> is_digit(#[trigger] s[i])
}

/// The value of a run of decimal digit bytes.
pub open spec fn digits_val(s: Seq<u8>) -> int
    decreases s.len(),
{
    if s.len() == 0 {
        0
    } else {
        digits_val(s.drop_last()) * 10 + (s.last() - 0x30)
    }
}

/// The index of the first occurrence of a separator byte, or the length
/// when the byte does not occur.
pub open spec fn first_sep(s: Seq<u8>, sep: u8) -> int
    decreases s.len(),
{
    if s.len() == 0 {
        0
    } else if s[0] == sep {
        0
    } else {
        1 + first_sep(s.drop_first(), sep)
    }
}

/// A cpulist token is one CPU number or a dash-joined inclusive range.
pub open spec fn token_ok(t: Seq<u8>, bound: int) -> bool {
    let d = first_sep(t, 0x2d);
    if d < t.len() {
        &&& valid_digits(t.take(d))
        &&& valid_digits(t.skip(d + 1))
        &&& digits_val(t.take(d)) <= bound
        &&& digits_val(t.skip(d + 1)) <= bound
    } else {
        valid_digits(t) && digits_val(t) <= bound
    }
}

/// The CPUs a cpulist token names, in order; a reversed range is empty.
pub open spec fn token_cpus(t: Seq<u8>) -> Seq<usize> {
    let d = first_sep(t, 0x2d);
    if d < t.len() {
        let lo = digits_val(t.take(d));
        let hi = digits_val(t.skip(d + 1));
        if lo <= hi {
            Seq::new((hi - lo + 1) as nat, |i: int| (lo + i) as usize)
        } else {
            Seq::empty()
        }
    } else {
        seq![digits_val(t) as usize]
    }
}

/// A comma-separated list of tokens, each well-formed and within bound.
pub open spec fn cpu_list_ok(s: Seq<u8>, bound: int) -> bool
    decreases s.len(),
    via cpu_list_ok_decreases
{
    let k = first_sep(s, 0x2c);
    if k < s.len() {
        token_ok(s.take(k), bound) && cpu_list_ok(s.skip(k + 1), bound)
    } else {
        token_ok(s, bound)
    }
}

#[via_fn]
proof fn cpu_list_ok_decreases(s: Seq<u8>, bound: int) {
    lemma_first_sep_props(s, 0x2c);
}

/// All CPUs a cpulist names, tokens in order.
pub open spec fn cpu_list_cpus(s: Seq<u8>) -> Seq<usize>
    decreases s.len(),
    via cpu_list_cpus_decreases
{
    let k = first_sep(s, 0x2c);
    if k < s.len() {
        token_cpus(s.take(k)) + cpu_list_cpus(s.skip(k + 1))
    } else {
        token_cpus(s)
    }
}

#[via_fn]
proof fn cpu_list_cpus_decreases(s: Seq<u8>) {
    lemma_first_sep_props(s, 0x2c);
}

/// Where the first separator lies: never past the length, never on an
/// earlier occurrence, always on one when it is inside the sequence.
pub proof fn lemma_first_sep_props(s: Seq<u8>, sep: u8)
    ensures
        0 <= first_sep(s, sep) <= s.len(),
        first_sep(s, sep) < s.len() ==> s[first_sep(s, sep)] == sep,
        forall|e: int| 0 <= e < first_sep(s, sep) ==> s[e] != sep,
    decreases s.len(),
{
    if s.len() > 0 && s[0] != sep {
        lemma_first_sep_props(s.drop_first(), sep);
        assert(forall|e: int| 0 <= e < s.len() - 1 ==> s.drop_first()[e] == s[e + 1]);
        assert forall|e: int| 0 <= e < first_sep(s, sep) implies s[e] != sep by {
            if e > 0 {
                assert(s.drop_first()[e - 1] != sep);
            }
        }
    }
}

/// A position with no separator before it, and a separator on it unless it
/// is the length, is the first separator position.
pub proof fn lemma_first_sep_at(s: Seq<u8>, sep: u8, d: int)
    requires
        0 <= d <= s.len(),
        forall|e: int| 0 <= e < d ==> s[e] != sep,
        d < s.len() ==> s[d] == sep,
    ensures
        first_sep(s, sep) == d,
{
    lemma_first_sep_props(s, sep);
    let f = first_sep(s, sep);
    if d < s.len() {
        if f < d {
            assert(s[f] != sep);
        } else if f > d {
            assert(s[d] != sep);
        }
    } else {
        if f < s.len() {
            assert(s[f] != sep);
        }
    }
}

/// Whitespace bytes inside a meminfo line: space and tab.
pub open spec fn is_ws(b: u8) -> bool {
    b == 0x20 || b == 0x09
}

/// The first non-whitespace position at or after p.
pub open spec fn skip_ws(s: Seq<u8>, p: int) -> int
    decreases s.len() - p,
{
    if 0 <= p < s.len() && is_ws(s[p]) {
        skip_ws(s, p + 1)
    } else {
        p
    }
}

/// The first whitespace position at or after p, or the length.
pub open spec fn end_token(s: Seq<u8>, p: int) -> int
    decreases s.len() - p,
{
    if 0 <= p < s.len() && !is_ws(s[p]) {
        end_token(s, p + 1)
    } else {
        p
    }
}

/// The bounds of the n-th whitespace-separated field at or after p, if that
/// many fields remain.
pub open spec fn field_range(s: Seq<u8>, n: nat, p: int) -> Option<(int, int)>
    decreases n,
{
    let a = skip_ws(s, p);
    if !(0 <= a < s.len()) {
        Option::None
    } else {
        let b = end_token(s, a);
        if n == 0 {
            Option::Some((a, b))
        } else {
            field_range(s, (n - 1) as nat, b)
        }
    }
}

/// The bytes of "MemTotal:".
pub open spec fn memtotal_pattern() -> Seq<u8> {
    seq![0x4du8, 0x65u8, 0x6du8, 0x54u8, 0x6fu8, 0x74u8, 0x61u8, 0x6cu8, 0x3au8]
}

/// A per-node MemTotal line: it starts with "Node" and contains "MemTotal:".
pub open spec fn is_node_memtotal_line(l: Seq<u8>) -> bool {
    &&& l.len() >= 4
    &&& l[0] == 0x4e
    &&& l[1] == 0x6f
    &&& l[2] == 0x64
    &&& l[3] == 0x65
    &&& exists|i: int| 0 <= i && i + 9 <= l.len() && #[trigger] l.subrange(i, i + 9) =~= memtotal_pattern()
}

/// The first newline-separated line that reports a node's MemTotal, if any.
pub open spec fn memtotal_line(s: Seq<u8>) -> Option<Seq<u8>>
    decreases s.len(),
    via memtotal_line_decreases
{
    let k = first_sep(s, 0x0a);
    let line = s.take(if k < s.len() {
        k
    } else {
        s.len() as int
    });
    if is_node_memtotal_line(line) {
        Option::Some(line)
    } else if k < s.len() {
        memtotal_line(s.skip(k + 1))
    } else {
        Option::None
    }
}

#[via_fn]
proof fn memtotal_line_decreases(s: Seq<u8>) {
    lemma_first_sep_props(s, 0x0a);
}

/// What parsing a node's meminfo text yields: zero without a MemTotal line,
/// the decimal value of that line's fourth field otherwise, and a parse
/// error when the field is missing, empty, non-decimal or out of range.
pub open spec fn meminfo_spec(s: Seq<u8>) -> Result<int, ()> {
    match memtotal_line(s) {
        Option::None => Result::Ok(0),
        Option::Some(line) => match field_range(line, 3, 0) {
            Option::None => Result::Err(()),
            Option::Some(r) => {
                let digits = line.subrange(r.0, r.1);
                if valid_digits(digits) && digits_val(digits) <= u64::MAX {
                    Result::Ok(digits_val(digits))
                } else {
                    Result::Err(())
                }
            },
        },
    }
}

/// One NUMA node: its id, the logical CPUs it hosts, and its memory size in
/// kilobytes as the kernel reports it.
#[derive(Debug, Clone)]
pub struct NumaNode {
    pub id: usize,
    pub cpus: Vec<usize>,
    pub memory_kb: u64,
    pub local_latency_ns: u64,
    pub remote_latency_ns: Vec<(usize, u64)>,
}

/// The machine's node layout and where the calling thread runs.
#[derive(Debug, Clone)]
pub struct NumaTopology {
    pub nodes: Vec<NumaNode>,
    pub total_nodes: usize,
    pub current_node: usize,
}

/// Scheduler state: the discovered topology and the service placement table
/// derived from it.
pub struct NumaScheduler {
    topology: NumaTopology,
    thread_assignments: Vec<(String, usize)>,
}

/// The placement policy: on one node everything is unconstrained; on two,
/// ingestion and order handling share node 0 while risk and portfolio take
/// node 1; on four, one critical service per node; on any other plurality,
/// the six well-known services go round-robin by their index. Unknown
/// services stay on the current node.
pub open spec fn spec_service_node(name: Seq<u8>, total: int, current: int) -> int {
    if total < 2 {
        current
    } else if total == 2 {
        if name == "market_data_ingestion".spec_bytes() {
            0
        } else if name == "order_processing".spec_bytes() {
            0
        } else if name == "risk_calculation".spec_bytes() {
            1
        } else if name == "portfolio_calculation".spec_bytes() {
            1
        } else {
            current
        }
    } else if total == 4 {
        if name == "market_data_ingestion".spec_bytes() {
            0
        } else if name == "order_processing".spec_bytes() {
            1
        } else if name == "risk_calculation".spec_bytes() {
            2
        } else if name == "portfolio_calculation".spec_bytes() {
            3
        } else {
            current
        }
    } else {
        if name == "market_data_ingestion".spec_bytes() {
            0int % total
        } else if name == "order_processing".spec_bytes() {
            1int % total
        } else if name == "risk_calculation".spec_bytes() {
            2int % total
        } else if name == "portfolio_calculation".spec_bytes() {
            3int % total
        } else if name == "technical_analysis".spec_bytes() {
            4int % total
        } else if name == "news_processing".spec_bytes() {
            5int % total
        } else {
            current
        }
    }
}

/// The placement table realizes the policy: every entry carries its
/// service's policy node, and with two or more nodes every well-known
/// service has an entry.
pub open spec fn table_matches_policy(table: Seq<(String, usize)>, total: int, current: int) -> bool {
    &&& forall|k: int|
        0 <= k < table.len() ==> (#[trigger] table[k]).1 == spec_service_node(
            vstd::utf8::encode_utf8(table[k].0@),
            total,
            current,
        )
    &&& total >= 2 ==> {
        &&& table_has(table, "market_data_ingestion".spec_bytes())
        &&& table_has(table, "order_processing".spec_bytes())
        &&& table_has(table, "risk_calculation".spec_bytes())
        &&& table_has(table, "portfolio_calculation".spec_bytes())
        &&& (total != 2 && total != 4) ==> table_has(table, "technical_analysis".spec_bytes())
            && table_has(table, "news_processing".spec_bytes())
    }
}

/// Some entry of the table names this service.
pub open spec fn table_has(table: Seq<(String, usize)>, name: Seq<u8>) -> bool {
    exists|k: int| 0 <= k < table.len() && vstd::utf8::encode_utf8((#[trigger] table[k]).0@) == name
}

impl NumaScheduler {
    pub closed spec fn spec_topology(&self) -> NumaTopology {
        self.topology
    }

    pub closed spec fn spec_table(&self) -> Seq<(String, usize)> {
        self.thread_assignments@
    }

    pub open spec fn wf(&self) -> bool {
        table_matches_policy(
            self.spec_table(),
            self.spec_topology().total_nodes as int,
            self.spec_topology().current_node as int,
        )
    }

    /// A scheduler over a topology the caller discovered, with the service
    /// placement table set up for trading workloads.
    pub fn from_topology(topology: NumaTopology) -> (r: Self)
        ensures
            r.wf(),
            r.spec_topology() == topology,
    {
        let mut scheduler = NumaScheduler { topology, thread_assignments: Vec::new() };
        scheduler.setup_trading_assignments();
        scheduler
    }

    /// Fills the placement table by topology cardinality: latency-critical
    /// ingestion and order handling first, analytics after, round-robin
    /// when the machine has an unusual node count.
    fn setup_trading_assignments(&mut self)
        requires
            old(self).spec_table().len() == 0,
        ensures
            final(self).spec_topology() == old(self).spec_topology(),
            final(self).wf(),
    {
        let total = self.topology.total_nodes;
        if total < 2 {
            return ;
        }
        if total == 2 {
            self.thread_assignments.push(("market_data_ingestion".to_owned(), 0));
            self.thread_assignments.push(("order_processing".to_owned(), 0));
            self.thread_assignments.push(("risk_calculation".to_owned(), 1));
            self.thread_assignments.push(("portfolio_calculation".to_owned(), 1));
            proof {
                lemma_service_names_distinct();
                assert(vstd::utf8::encode_utf8(self.thread_assignments@[0].0@)
                    == "market_data_ingestion".spec_bytes());
                assert(vstd::utf8::encode_utf8(self.thread_assignments@[1].0@)
                    == "order_processing".spec_bytes());
                assert(vstd::utf8::encode_utf8(self.thread_assignments@[2].0@)
                    == "risk_calculation".spec_bytes());
                assert(vstd::utf8::encode_utf8(self.thread_assignments@[3].0@)
                    == "portfolio_calculation".spec_bytes());
            }
        } else if total == 4 {
            self.thread_assignments.push(("market_data_ingestion".to_owned(), 0));
            self.thread_assignments.push(("order_processing".to_owned(), 1));
            self.thread_assignments.push(("risk_calculation".to_owned(), 2));
            self.thread_assignments.push(("portfolio_calculation".to_owned(), 3));
            proof {
                lemma_service_names_distinct();
                assert(vstd::utf8::encode_utf8(self.thread_assignments@[0].0@)
                    == "market_data_ingestion".spec_bytes());
                assert(vstd::utf8::encode_utf8(self.thread_assignments@[1].0@)
                    == "order_processing".spec_bytes());
                assert(vstd::utf8::encode_utf8(self.thread_assignments@[2].0@)
                    == "risk_calculation".spec_bytes());
                assert(vstd::utf8::encode_utf8(self.thread_assignments@[3].0@)
                    == "portfolio_calculation".spec_bytes());
            }
        } else {
            self.thread_assignments.push(("market_data_ingestion".to_owned(), 0 % total));
            self.thread_assignments.push(("order_processing".to_owned(), 1 % total));
            self.thread_assignments.push(("risk_calculation".to_owned(), 2 % total));
            self.thread_assignments.push(("portfolio_calculation".to_owned(), 3 % total));
            self.thread_assignments.push(("technical_analysis".to_owned(), 4 % total));
            self.thread_assignments.push(("news_processing".to_owned(), 5 % total));
            proof {
                lemma_service_names_distinct();
                assert(vstd::utf8::encode_utf8(self.thread_assignments@[0].0@)
                    == "market_data_ingestion".spec_bytes());
                assert(vstd::utf8::encode_utf8(self.thread_assignments@[1].0@)
                    == "order_processing".spec_bytes());
                assert(vstd::utf8::encode_utf8(self.thread_assignments@[2].0@)
                    == "risk_calculation".spec_bytes());
                assert(vstd::utf8::encode_utf8(self.thread_assignments@[3].0@)
                    == "portfolio_calculation".spec_bytes());
                assert(vstd::utf8::encode_utf8(self.thread_assignments@[4].0@)
                    == "technical_analysis".spec_bytes());
                assert(vstd::utf8::encode_utf8(self.thread_assignments@[5].0@)
                    == "news_processing".spec_bytes());
            }
        }
    }

    /// The policy node for a service, the current node for services the
    /// policy does not know.
    pub fn get_node_for_service(&self, service: &str) -> (r: usize)
        requires
            self.wf(),
        ensures
            r == spec_service_node(
                service.spec_bytes(),
                self.spec_topology().total_nodes as int,
                self.spec_topology().current_node as int,
            ),
    {
        let target = service.as_bytes();
        let mut k: usize = 0;
        while k < self.thread_assignments.len()
            invariant
                self.wf(),
                target@ == service.spec_bytes(),
                k <= self.spec_table().len(),
                forall|j: int|
                    0 <= j < k ==> vstd::utf8::encode_utf8(
                        (#[trigger] self.spec_table()[j]).0@,
                    ) != service.spec_bytes(),
            decreases self.spec_table().len() - k,
        {
            let entry_name = self.thread_assignments[k].0.as_str().as_bytes();
            if bytes_eq(entry_name, target) {
                return self.thread_assignments[k].1;
            }
            k = k + 1;
        }
        proof {
            // No table entry names this service, so the policy defaults to
            // the current node: a well-known name would have an entry.
            let total = self.spec_topology().total_nodes as int;
            if total >= 2 {
                assert(spec_service_node(
                    service.spec_bytes(),
                    total,
                    self.spec_topology().current_node as int,
                ) == self.spec_topology().current_node as int) by {
                    if service.spec_bytes() == "market_data_ingestion".spec_bytes() {
                        assert(table_has(self.spec_table(), service.spec_bytes()));
                    } else if service.spec_bytes() == "order_processing".spec_bytes() {
                        assert(table_has(self.spec_table(), service.spec_bytes()));
                    } else if service.spec_bytes() == "risk_calculation".spec_bytes() {
                        assert(table_has(self.spec_table(), service.spec_bytes()));
                    } else if service.spec_bytes() == "portfolio_calculation".spec_bytes() {
                        assert(table_has(self.spec_table(), service.spec_bytes()));
                    } else if total != 2 && total != 4 && service.spec_bytes()
                        == "technical_analysis".spec_bytes() {
                        assert(table_has(self.spec_table(), service.spec_bytes()));
                    } else if total != 2 && total != 4 && service.spec_bytes()
                        == "news_processing".spec_bytes() {
                        assert(table_has(self.spec_table(), service.spec_bytes()));
                    }
                }
            }
        }
        self.topology.current_node
    }

    pub fn get_topology(&self) -> (r: &NumaTopology)
        ensures
            *r == self.spec_topology(),
    {
        &self.topology
    }

    /// Parses a kernel cpulist such as a comma-separated run of CPU numbers
    /// and inclusive ranges into the CPUs it names.
    #[verifier::rlimit(50)]
    pub fn parse_cpu_list(cpulist: &str) -> (r: Result<Vec<usize>, EngineError>)
        ensures
            r matches Err(e) ==> e == EngineError::InvalidArgument,
            r is Ok <==> cpu_list_ok(cpulist.spec_bytes(), usize::MAX as int),
            r matches Ok(v) ==> v@ == cpu_list_cpus(cpulist.spec_bytes()),
    {
        let bytes = cpulist.as_bytes();
        let ghost whole = bytes@;
        let mut cpus: Vec<usize> = Vec::new();
        let mut pos: usize = 0;
        proof {
            assert(whole.skip(0int) =~= whole);
            assert(cpus@ + cpu_list_cpus(whole) =~= cpu_list_cpus(whole));
        }
        loop
            invariant
                whole == cpulist.spec_bytes(),
                bytes@ == whole,
                pos <= whole.len(),
                cpu_list_ok(whole, usize::MAX as int) <==> cpu_list_ok(
                    whole.skip(pos as int),
                    usize::MAX as int,
                ),
                cpu_list_ok(whole, usize::MAX as int) ==> cpu_list_cpus(whole) == cpus@
                    + cpu_list_cpus(whole.skip(pos as int)),
            decreases whole.len() - pos,
        {
            let ghost rest = whole.skip(pos as int);
            // Find the end of the current token.
            let mut j: usize = pos;
            while j < bytes.len() && bytes[j] != 0x2c
                invariant
                    bytes@ == whole,
                    pos <= j <= whole.len(),
                    forall|e: int| pos <= e < j ==> whole[e] != 0x2c,
                decreases whole.len() - j,
            {
                j = j + 1;
            }
            proof {
                assert(forall|e: int| 0 <= e < rest.len() ==> rest[e] == whole[pos + e]);
                lemma_first_sep_at(rest, 0x2c, j - pos);
                if j < whole.len() {
                    assert(rest.take(j - pos) =~= whole.subrange(pos as int, j as int));
                    assert(rest.skip(j - pos + 1) =~= whole.skip(j + 1));
                } else {
                    assert(rest =~= whole.subrange(pos as int, j as int));
                }
            }
            let token = parse_token(bytes, pos, j);
            match token {
                Err(e) => {
                    return Err(e);
                },
                Ok(mut t) => {
                    cpus.append(&mut t);
                },
            }
            if j == bytes.len() {
                return Ok(cpus);
            }
            pos = j + 1;
        }
    }

    /// Pulls the MemTotal kilobyte figure out of a node's meminfo text: the
    /// fourth whitespace-separated field of the first line that starts with
    /// "Node" and contains "MemTotal:". Zero when no such line exists, as
    /// for a node directory without the file.
    pub fn parse_memory_info(content: &str) -> (r: Result<u64, EngineError>)
        ensures
            r matches Err(e) ==> e == EngineError::InvalidArgument,
            r is Ok <==> meminfo_spec(content.spec_bytes()) is Ok,
            r matches Ok(v) ==> meminfo_spec(content.spec_bytes()) == Result::<int, ()>::Ok(
                v as int,
            ),
    {
        let bytes = content.as_bytes();
        let ghost whole = bytes@;
        proof {
            assert(whole.skip(0int) =~= whole);
        }
        let mut line_start: usize = 0;
        let mut i: usize = 0;
        while i < bytes.len()
            invariant
                bytes@ == whole,
                whole == content.spec_bytes(),
                line_start <= i <= whole.len(),
                forall|e: int| line_start <= e < i ==> whole[e] != 0x0a,
                memtotal_line(whole) == memtotal_line(whole.skip(line_start as int)),
            decreases whole.len() - i,
        {
            if bytes[i] == 0x0a {
                let ghost rest = whole.skip(line_start as int);
                proof {
                    assert(forall|e: int| 0 <= e < rest.len() ==> rest[e] == whole[line_start + e]);
                    lemma_first_sep_at(rest, 0x0a, i - line_start);
                    assert(rest.take(i - line_start) =~= whole.subrange(
                        line_start as int,
                        i as int,
                    ));
                    assert(rest.skip(i - line_start + 1) =~= whole.skip(i + 1));
                }
                if let Some(kb) = line_mem_total(bytes, line_start, i) {
                    return kb;
                }
                line_start = i + 1;
            }
            i = i + 1;
        }
        let ghost rest = whole.skip(line_start as int);
        proof {
            assert(forall|e: int| 0 <= e < rest.len() ==> rest[e] == whole[line_start + e]);
            lemma_first_sep_at(rest, 0x0a, whole.len() - line_start);
            assert(rest.take(rest.len() as int) =~= whole.subrange(
                line_start as int,
                whole.len() as int,
            ));
        }
        if let Some(kb) = line_mem_total(bytes, line_start, bytes.len()) {
            return kb;
        }
        Ok(0)
    }
}

/// Whether a meminfo line reports a node's MemTotal and, if so, its parsed
/// fourth field: None when the line is no such line, Some of the parse
/// outcome otherwise.
fn line_mem_total(bytes: &[u8], from: usize, to: usize) -> (r: Option<Result<u64, EngineError>>)
    requires
        from <= to <= bytes@.len(),
    ensures
        r is None <==> !is_node_memtotal_line(bytes@.subrange(from as int, to as int)),
        r matches Some(x) ==> {
            let line = bytes@.subrange(from as int, to as int);
            &&& (x matches Err(e) ==> e == EngineError::InvalidArgument)
            &&& (field_range(line, 3, 0) is None ==> x is Err)
            &&& (field_range(line, 3, 0) matches Some(rg) ==> {
                let digits = line.subrange(rg.0, rg.1);
                &&& (x is Ok <==> valid_digits(digits) && digits_val(digits) <= u64::MAX)
                &&& (x matches Ok(v) ==> v == digits_val(digits))
            })
        },
{
    let ghost line = bytes@.subrange(from as int, to as int);
    // The line must start with "Node".
    if to - from < 4 {
        return None;
    }
    if !(bytes[from] == 0x4e && bytes[from + 1] == 0x6f && bytes[from + 2] == 0x64 && bytes[from
        + 3] == 0x65) {
        return None;
    }
    // The line must contain "MemTotal:".
    let mut found = false;
    let mut i = from;
    while to - i >= 9
        invariant
            from <= to <= bytes@.len(),
            from <= i <= to,
            line == bytes@.subrange(from as int, to as int),
            found <==> exists|p: int|
                from <= p < i && p + 9 <= to && #[trigger] bytes@.subrange(p, p + 9)
                    =~= memtotal_pattern(),
        decreases to - i,
    {
        let m = bytes[i] == 0x4d && bytes[i + 1] == 0x65 && bytes[i + 2] == 0x6d && bytes[i + 3]
            == 0x54 && bytes[i + 4] == 0x6f && bytes[i + 5] == 0x74 && bytes[i + 6] == 0x61
            && bytes[i + 7] == 0x6c && bytes[i + 8] == 0x3a;
        proof {
            if m {
                assert(bytes@.subrange(i as int, i + 9) =~= memtotal_pattern());
            } else {
                assert(!(bytes@.subrange(i as int, i + 9) =~= memtotal_pattern())) by {
                    if bytes@.subrange(i as int, i + 9) =~= memtotal_pattern() {
                        assert(bytes@[i as int] == 0x4d);
                        assert(bytes@[i + 1] == 0x65);
                        assert(bytes@[i + 2] == 0x6d);
                        assert(bytes@[i + 3] == 0x54);
                        assert(bytes@[i + 4] == 0x6f);
                        assert(bytes@[i + 5] == 0x74);
                        assert(bytes@[i + 6] == 0x61);
                        assert(bytes@[i + 7] == 0x6c);
                        assert(bytes@[i + 8] == 0x3a);
                    }
                }
            }
        }
        if m {
            found = true;
        }
        i = i + 1;
    }
    proof {
        // Matches inside the line and matches at absolute offsets agree.
        assert forall|p: int| 0 <= p && p + 9 <= line.len() implies (#[trigger] line.subrange(
            p,
            p + 9,
        ) =~= memtotal_pattern()) == (bytes@.subrange(from + p, from + p + 9)
            =~= memtotal_pattern()) by {
            assert(line.subrange(p, p + 9) =~= bytes@.subrange(from + p, from + p + 9));
        }
        if found {
            let p = choose|p: int|
                from <= p && p + 9 <= to && #[trigger] bytes@.subrange(p, p + 9)
                    =~= memtotal_pattern();
            assert(line.subrange(p - from, p - from + 9) =~= memtotal_pattern());
            assert(is_node_memtotal_line(line));
        } else {
            if is_node_memtotal_line(line) {
                let p = choose|p: int|
                    0 <= p && p + 9 <= line.len() && #[trigger] line.subrange(p, p + 9)
                        =~= memtotal_pattern();
                assert(bytes@.subrange(from + p, from + p + 9) =~= memtotal_pattern());
                assert(false);
            }
        }
    }
    if !found {
        return None;
    }
    // Walk to the fourth whitespace-separated field and parse it as a
    // decimal kilobyte count.
    let mut field: usize = 0;
    let mut j = from;
    while j < to
        invariant
            from <= to <= bytes@.len(),
            from <= j <= to,
            field <= 3,
            line == bytes@.subrange(from as int, to as int),
            is_node_memtotal_line(line),
            field_range(line, 3, 0) == field_range(line, (3 - field) as nat, j - from),
        decreases to - j,
    {
        let ghost j_iter = j as int;
        // Skip whitespace.
        while j < to && (bytes[j] == 0x20 || bytes[j] == 0x09)
            invariant
                from <= j <= to <= bytes@.len(),
                j_iter <= j,
                line == bytes@.subrange(from as int, to as int),
                skip_ws(line, j_iter - from) == skip_ws(line, j - from),
            decreases to - j,
        {
            proof {
                assert(is_ws(line[j - from]));
            }
            j = j + 1;
        }
        proof {
            assert(skip_ws(line, j - from) == j - from);
        }
        if j == to {
            // Fewer than four fields on the line.
            return Some(Err(EngineError::InvalidArgument));
        }
        let start = j;
        j = j + 1;
        proof {
            assert(!is_ws(line[start - from]));
            assert(end_token(line, start - from) == end_token(line, start - from + 1));
        }
        while j < to && bytes[j] != 0x20 && bytes[j] != 0x09
            invariant
                start < j <= to <= bytes@.len(),
                from <= start,
                line == bytes@.subrange(from as int, to as int),
                end_token(line, start - from) == end_token(line, j - from),
            decreases to - j,
        {
            proof {
                assert(!is_ws(line[j - from]));
            }
            j = j + 1;
        }
        proof {
            assert(end_token(line, j - from) == j - from);
        }
        if field == 3 {
            proof {
                assert(field_range(line, 0, j_iter - from) == Option::Some(
                    (start - from, j - from),
                ));
                assert(bytes@.subrange(start as int, j as int) =~= line.subrange(
                    start - from,
                    j - from,
                ));
            }
            return Some(parse_u64_digits(bytes, start, j));
        }
        field = field + 1;
    }
    proof {
        assert(skip_ws(line, j - from) == j - from);
        assert(field_range(line, 3, 0) is None);
    }
    Some(Err(EngineError::InvalidArgument))
}

/// Parses a run of decimal digit bytes into a 64-bit kilobyte count.
fn parse_u64_digits(bytes: &[u8], from: usize, to: usize) -> (r: Result<u64, EngineError>)
    requires
        from <= to <= bytes@.len(),
    ensures
        r matches Err(e) ==> e == EngineError::InvalidArgument,
        r is Ok <==> valid_digits(bytes@.subrange(from as int, to as int)) && digits_val(
            bytes@.subrange(from as int, to as int),
        ) <= u64::MAX,
        r matches Ok(v) ==> v == digits_val(bytes@.subrange(from as int, to as int)),
{
    let ghost t = bytes@.subrange(from as int, to as int);
    if from == to {
        return Err(EngineError::InvalidArgument);
    }
    let mut val: u64 = 0;
    let mut i = from;
    while i < to
        invariant
            from <= i <= to <= bytes@.len(),
            t == bytes@.subrange(from as int, to as int),
            forall|e: int| 0 <= e < i - from ==> is_digit(#[trigger] t[e]),
            val == digits_val(t.take(i - from)),
        decreases to - i,
    {
        let b = bytes[i];
        if b < 0x30 || b > 0x39 {
            proof {
                assert(!is_digit(t[i - from]));
            }
            return Err(EngineError::InvalidArgument);
        }
        let d = (b - 0x30) as u64;
        proof {
            assert(t.take(i - from + 1).drop_last() =~= t.take(i - from));
            assert(t.take(i - from + 1).last() == t[i - from]);
        }
        if val > (u64::MAX - d) / 10 {
            proof {
                vstd::arithmetic::div_mod::lemma_fundamental_div_mod((u64::MAX - d) as int, 10);
                assert(digits_val(t.take(i - from + 1)) > u64::MAX);
                if valid_digits(t) {
                    lemma_digits_val_monotone(t, i - from + 1, t.len() as int);
                    assert(t.take(t.len() as int) =~= t);
                }
            }
            return Err(EngineError::InvalidArgument);
        }
        val = val * 10 + d;
        i = i + 1;
    }
    proof {
        assert(t.take(to - from) =~= t);
        assert(valid_digits(t));
    }
    Ok(val)
}

/// Parses one cpulist token (a number or an inclusive range) into the CPUs
/// it names.
fn parse_token(bytes: &[u8], from: usize, to: usize) -> (r: Result<Vec<usize>, EngineError>)
    requires
        from <= to <= bytes@.len(),
    ensures
        r matches Err(e) ==> e == EngineError::InvalidArgument,
        r is Ok <==> token_ok(bytes@.subrange(from as int, to as int), usize::MAX as int),
        r matches Ok(v) ==> v@ == token_cpus(bytes@.subrange(from as int, to as int)),
{
    let ghost t = bytes@.subrange(from as int, to as int);
    // Find the first dash, if any.
    let mut d: usize = from;
    while d < to && bytes[d] != 0x2d
        invariant
            from <= d <= to <= bytes@.len(),
            forall|e: int| from <= e < d ==> bytes@[e] != 0x2d,
        decreases to - d,
    {
        d = d + 1;
    }
    proof {
        assert(forall|e: int| 0 <= e < t.len() ==> t[e] == bytes@[from + e]);
        lemma_first_sep_at(t, 0x2d, d - from);
    }
    if d == to {
        let v = match parse_usize_digits(bytes, from, to) {
            Ok(v) => v,
            Err(e) => {
                return Err(e);
            },
        };
        let mut out: Vec<usize> = Vec::new();
        out.push(v);
        proof {
            assert(out@ =~= token_cpus(t));
        }
        Ok(out)
    } else {
        proof {
            assert(t.take(d - from) =~= bytes@.subrange(from as int, d as int));
            assert(t.skip(d - from + 1) =~= bytes@.subrange(d + 1, to as int));
        }
        let lo = match parse_usize_digits(bytes, from, d) {
            Ok(v) => v,
            Err(e) => {
                return Err(e);
            },
        };
        let hi = match parse_usize_digits(bytes, d + 1, to) {
            Ok(v) => v,
            Err(e) => {
                return Err(e);
            },
        };
        let mut out: Vec<usize> = Vec::new();
        if lo <= hi {
            let mut c = lo;
            loop
                invariant_except_break
                    lo <= c <= hi,
                    out@ =~= Seq::new((c - lo) as nat, |i: int| (lo + i) as usize),
                ensures
                    out@ =~= Seq::new((hi - lo + 1) as nat, |i: int| (lo + i) as usize),
                decreases hi - c,
            {
                out.push(c);
                proof {
                    assert(out@ =~= Seq::new((c - lo + 1) as nat, |i: int| (lo + i) as usize));
                }
                if c == hi {
                    break ;
                }
                c = c + 1;
            }
        }
        proof {
            assert(out@ =~= token_cpus(t));
        }
        Ok(out)
    }
}

/// Parses a run of decimal digit bytes; rejects empty runs, non-digits and
/// values past usize::MAX.
fn parse_usize_digits(bytes: &[u8], from: usize, to: usize) -> (r: Result<usize, EngineError>)
    requires
        from <= to <= bytes@.len(),
    ensures
        r matches Err(e) ==> e == EngineError::InvalidArgument,
        r is Ok <==> valid_digits(bytes@.subrange(from as int, to as int)) && digits_val(
            bytes@.subrange(from as int, to as int),
        ) <= usize::MAX,
        r matches Ok(v) ==> v == digits_val(bytes@.subrange(from as int, to as int)),
{
    let ghost t = bytes@.subrange(from as int, to as int);
    if from == to {
        return Err(EngineError::InvalidArgument);
    }
    let mut val: usize = 0;
    let mut i = from;
    while i < to
        invariant
            from <= i <= to <= bytes@.len(),
            t == bytes@.subrange(from as int, to as int),
            forall|e: int| 0 <= e < i - from ==> is_digit(#[trigger] t[e]),
            val == digits_val(t.take(i - from)),
        decreases to - i,
    {
        let b = bytes[i];
        if b < 0x30 || b > 0x39 {
            proof {
                assert(!is_digit(t[i - from]));
            }
            return Err(EngineError::InvalidArgument);
        }
        let d = (b - 0x30) as usize;
        proof {
            assert(t.take(i - from + 1).drop_last() =~= t.take(i - from));
            assert(t.take(i - from + 1).last() == t[i - from]);
        }
        if val > (usize::MAX - d) / 10 {
            proof {
                vstd::arithmetic::div_mod::lemma_fundamental_div_mod((usize::MAX - d) as int, 10);
                assert(digits_val(t.take(i - from + 1)) > usize::MAX);
                if valid_digits(t) {
                    lemma_digits_val_monotone(t, i - from + 1, t.len() as int);
                    assert(t.take(t.len() as int) =~= t);
                }
            }
            return Err(EngineError::InvalidArgument);
        }
        val = val * 10 + d;
        i = i + 1;
    }
    proof {
        assert(t.take(to - from) =~= t);
        assert(valid_digits(t));
    }
    Ok(val)
}

/// The value of a digit prefix never shrinks as the prefix grows.
proof fn lemma_digits_val_monotone(t: Seq<u8>, i: int, j: int)
    requires
        0 <= i <= j <= t.len(),
        forall|e: int| 0 <= e < j ==> is_digit(#[trigger] t[e]),
    ensures
        digits_val(t.take(i)) <= digits_val(t.take(j)),
    decreases j - i,
{
    if i < j {
        lemma_digits_val_monotone(t, i, j - 1);
        assert(t.take(j).drop_last() =~= t.take(j - 1));
        lemma_digits_val_nonneg(t, j - 1);
        assert(is_digit(t[j - 1]));
        assert(digits_val(t.take(j)) == digits_val(t.take(j - 1)) * 10 + (t[j - 1] - 0x30));
        assert(digits_val(t.take(j - 1)) * 10 >= digits_val(t.take(j - 1))) by (nonlinear_arith)
            requires digits_val(t.take(j - 1)) >= 0;
    }
}

/// A run of digit bytes has a non-negative value.
proof fn lemma_digits_val_nonneg(t: Seq<u8>, i: int)
    requires
        0 <= i <= t.len(),
        forall|e: int| 0 <= e < i ==> is_digit(#[trigger] t[e]),
    ensures
        digits_val(t.take(i)) >= 0,
    decreases i,
{
    if i > 0 {
        assert(t.take(i).drop_last() =~= t.take(i - 1));
        lemma_digits_val_nonneg(t, i - 1);
        assert(digits_val(t.take(i)) == digits_val(t.take(i - 1)) * 10 + (t[i - 1] - 0x30));
        assert(digits_val(t.take(i - 1)) * 10 >= 0) by (nonlinear_arith)
            requires digits_val(t.take(i - 1)) >= 0;
    } else {
        assert(t.take(0int) =~= Seq::<u8>::empty());
    }
}

/// The six well-known service names differ pairwise in their bytes.
proof fn lemma_service_names_distinct()
    ensures
        "order_processing".spec_bytes() != "market_data_ingestion".spec_bytes(),
        "risk_calculation".spec_bytes() != "market_data_ingestion".spec_bytes(),
        "risk_calculation".spec_bytes() != "order_processing".spec_bytes(),
        "portfolio_calculation".spec_bytes() != "market_data_ingestion".spec_bytes(),
        "portfolio_calculation".spec_bytes() != "order_processing".spec_bytes(),
        "portfolio_calculation".spec_bytes() != "risk_calculation".spec_bytes(),
        "technical_analysis".spec_bytes() != "market_data_ingestion".spec_bytes(),
        "technical_analysis".spec_bytes() != "order_processing".spec_bytes(),
        "technical_analysis".spec_bytes() != "risk_calculation".spec_bytes(),
        "technical_analysis".spec_bytes() != "portfolio_calculation".spec_bytes(),
        "news_processing".spec_bytes() != "market_data_ingestion".spec_bytes(),
        "news_processing".spec_bytes() != "order_processing".spec_bytes(),
        "news_processing".spec_bytes() != "risk_calculation".spec_bytes(),
        "news_processing".spec_bytes() != "portfolio_calculation".spec_bytes(),
        "news_processing".spec_bytes() != "technical_analysis".spec_bytes(),
{
    reveal_strlit("market_data_ingestion");
    reveal_strlit("order_processing");
    reveal_strlit("risk_calculation");
    reveal_strlit("portfolio_calculation");
    reveal_strlit("technical_analysis");
    reveal_strlit("news_processing");
    broadcast use vstd::string::is_ascii_spec_bytes;

    assert(is_ascii("market_data_ingestion"));
    assert(is_ascii("order_processing"));
    assert(is_ascii("risk_calculation"));
    assert(is_ascii("portfolio_calculation"));
    assert(is_ascii("technical_analysis"));
    assert(is_ascii("news_processing"));
    // Same-length pairs are told apart by their first byte; the rest differ
    // in length.
    assert("risk_calculation".spec_bytes()[0] == 'r' as u8);
    assert("order_processing".spec_bytes()[0] == 'o' as u8);
    assert("portfolio_calculation".spec_bytes()[0] == 'p' as u8);
    assert("market_data_ingestion".spec_bytes()[0] == 'm' as u8);
}

/// A NUMA-aware huge-page allocator bound to one node; the allocation and
/// release calls themselves are platform work done by the embedding
/// program, which keys them by this node id.
pub struct NumaAllocator {
    pub node_id: usize,
    pub hugepage_mount: String,
}

/// The decimal digit characters of n, most significant first.
pub open spec fn dec_chars(n: nat) -> Seq<char>
    decreases n,
{
    if n < 10 {
        seq![digit_char(n)]
    } else {
        dec_chars(n / 10).push(digit_char(n % 10))
    }
}

/// The character of one decimal digit.
pub open spec fn digit_char(d: nat) -> char {
    if d == 0 {
        '0'
    } else if d == 1 {
        '1'
    } else if d == 2 {
        '2'
    } else if d == 3 {
        '3'
    } else if d == 4 {
        '4'
    } else if d == 5 {
        '5'
    } else if d == 6 {
        '6'
    } else if d == 7 {
        '7'
    } else if d == 8 {
        '8'
    } else {
        '9'
    }
}

impl NumaAllocator {
    /// An allocator for one node, remembering the advisory hugetlbfs mount
    /// path for that node.
    pub fn new(node_id: usize) -> (r: Self)
        ensures
            r.node_id == node_id,
            r.hugepage_mount@ == "/mnt/hugepages/node"@ + dec_chars(node_id as nat),
    {
        let mut mount = "/mnt/hugepages/node".to_owned();
        push_decimal(&mut mount, node_id);
        NumaAllocator { node_id, hugepage_mount: mount }
    }
}

/// Appends n's decimal digits to a string.
fn push_decimal(out: &mut String, n: usize)
    ensures
        final(out)@ == old(out)@ + dec_chars(n as nat),
    decreases n,
{
    if n >= 10 {
        push_decimal(out, n / 10);
        push_digit(out, n % 10);
        proof {
            assert(old(out)@ + dec_chars((n / 10) as nat) + seq![digit_char((n % 10) as nat)]
                =~= old(out)@ + dec_chars(n as nat));
        }
    } else {
        push_digit(out, n);
        proof {
            assert(old(out)@ + seq![digit_char(n as nat)] =~= old(out)@ + dec_chars(n as nat));
        }
    }
}

/// Appends one digit character.
fn push_digit(out: &mut String, d: usize)
    requires
        d < 10,
    ensures
        final(out)@ == old(out)@ + seq![digit_char(d as nat)],
{
    proof {
        reveal_strlit("0");
        reveal_strlit("1");
        reveal_strlit("2");
        reveal_strlit("3");
        reveal_strlit("4");
        reveal_strlit("5");
        reveal_strlit("6");
        reveal_strlit("7");
        reveal_strlit("8");
        reveal_strlit("9");
    }
    let s = if d == 0 {
        "0"
    } else if d == 1 {
        "1"
    } else if d == 2 {
        "2"
    } else if d == 3 {
        "3"
    } else if d == 4 {
        "4"
    } else if d == 5 {
        "5"
    } else if d == 6 {
        "6"
    } else if d == 7 {
        "7"
    } else if d == 8 {
        "8"
    } else {
        "9"
    };
    out.append(s);
    proof {
        assert(out@ =~= old(out)@ + seq![digit_char(d as nat)]);
    }
}

} // verus!
