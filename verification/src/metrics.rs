//! The broker's gauges and counters in the Prometheus text format.

use crate::broker::BrokerMetrics;
use crate::text;
use crate::text::decimal;
use vstd::prelude::*;
use vstd::string::StringExecFns;

verus! {

/// One metric: help, type and value.
pub open spec fn entry(name: Seq<char>, help: Seq<char>, kind: Seq<char>, value: nat) -> Seq<char> {
    "# HELP "@ + name + " "@ + help + "\n# TYPE "@ + name + " "@ + kind + "\n"@ + name + " "@
        + text::decimal_text(value) + "\n"@
}

fn add_entry(out: &mut String, name: &str, help: &str, kind: &str, value: u64)
    ensures
        final(out)@ == old(out)@ + entry(name@, help@, kind@, value as nat),
{
    let ghost before = out@;
    let mut line = String::from_str("# HELP ");
    line.append(name);
    line.append(" ");
    line.append(help);
    line.append("\n# TYPE ");
    line.append(name);
    line.append(" ");
    line.append(kind);
    line.append("\n");
    line.append(name);
    line.append(" ");
    line.append(decimal(value).as_str());
    line.append("\n");
    assert(line@ =~= entry(name@, help@, kind@, value as nat));
    out.append(line.as_str());
}

/// The broker's part of the metrics page.
pub open spec fn broker_metrics_text(m: BrokerMetrics) -> Seq<char> {
    entry(
        "dd_rust_network_mutex_keys"@,
        "Number of distinct lock keys tracked by the broker."@,
        "gauge"@,
        m.keys as nat,
    ) + entry(
        "dd_rust_network_mutex_holders"@,
        "Total active lock holders (exclusive + readers + writers)."@,
        "gauge"@,
        m.holders as nat,
    ) + entry(
        "dd_rust_network_mutex_waiters"@,
        "Total queued lock requests across all keys."@,
        "gauge"@,
        m.waiters as nat,
    ) + entry(
        "dd_rust_network_mutex_clients"@,
        "Connected broker clients."@,
        "gauge"@,
        m.clients as nat,
    ) + entry(
        "dd_rust_network_mutex_pending_deadlines"@,
        "Holders currently registered in the periodic TTL deadline index."@,
        "gauge"@,
        m.pending_deadlines as nat,
    ) + entry(
        "dd_rust_network_mutex_ttl_evictions_total"@,
        "Cumulative TTL-driven evictions performed by the periodic sweeper (upstream live-mutex#13)."@,
        "counter"@,
        m.ttl_evictions_total as nat,
    ) + entry(
        "dd_rust_network_mutex_max_concurrency_cap"@,
        "Effective per-key concurrency ceiling enforced by the broker (upstream live-mutex semaphore-style locks)."@,
        "gauge"@,
        m.max_concurrency_cap as nat,
    ) + entry(
        "dd_rust_network_mutex_concurrency_cap_clamps_total"@,
        "Cumulative `lock` requests whose `max` was clamped to the cap."@,
        "counter"@,
        m.concurrency_cap_clamps_total as nat,
    ) + entry(
        "dd_rust_network_mutex_fencing_watermark"@,
        "Strictly monotonic upper bound on every fencing token issued since broker start; seeds freshly-materialised LockState entries to preserve cross-prune monotonicity."@,
        "counter"@,
        m.fencing_watermark as nat,
    ) + entry(
        "dd_rust_network_mutex_idle_keys_pruned_total"@,
        "Cumulative idle LockState entries reclaimed by the periodic empty-key prune sweep."@,
        "counter"@,
        m.idle_keys_pruned_total as nat,
    )
}

/// Appends the broker's part to what the registry gives.
pub fn render(registry: &str, m: &BrokerMetrics) -> (r: String)
    ensures
        r@ == registry@ + broker_metrics_text(*m),
{
    let mut part = String::new();
    add_entry(
        &mut part,
        "dd_rust_network_mutex_keys",
        "Number of distinct lock keys tracked by the broker.",
        "gauge",
        m.keys,
    );
    add_entry(
        &mut part,
        "dd_rust_network_mutex_holders",
        "Total active lock holders (exclusive + readers + writers).",
        "gauge",
        m.holders,
    );
    add_entry(
        &mut part,
        "dd_rust_network_mutex_waiters",
        "Total queued lock requests across all keys.",
        "gauge",
        m.waiters,
    );
    add_entry(
        &mut part,
        "dd_rust_network_mutex_clients",
        "Connected broker clients.",
        "gauge",
        m.clients,
    );
    add_entry(
        &mut part,
        "dd_rust_network_mutex_pending_deadlines",
        "Holders currently registered in the periodic TTL deadline index.",
        "gauge",
        m.pending_deadlines,
    );
    add_entry(
        &mut part,
        "dd_rust_network_mutex_ttl_evictions_total",
        "Cumulative TTL-driven evictions performed by the periodic sweeper (upstream live-mutex#13).",
        "counter",
        m.ttl_evictions_total,
    );
    add_entry(
        &mut part,
        "dd_rust_network_mutex_max_concurrency_cap",
        "Effective per-key concurrency ceiling enforced by the broker (upstream live-mutex semaphore-style locks).",
        "gauge",
        m.max_concurrency_cap as u64,
    );
    add_entry(
        &mut part,
        "dd_rust_network_mutex_concurrency_cap_clamps_total",
        "Cumulative `lock` requests whose `max` was clamped to the cap.",
        "counter",
        m.concurrency_cap_clamps_total,
    );
    add_entry(
        &mut part,
        "dd_rust_network_mutex_fencing_watermark",
        "Strictly monotonic upper bound on every fencing token issued since broker start; seeds freshly-materialised LockState entries to preserve cross-prune monotonicity.",
        "counter",
        m.fencing_watermark,
    );
    add_entry(
        &mut part,
        "dd_rust_network_mutex_idle_keys_pruned_total",
        "Cumulative idle LockState entries reclaimed by the periodic empty-key prune sweep.",
        "counter",
        m.idle_keys_pruned_total,
    );
    assert(part@ =~= broker_metrics_text(*m));
    let mut body = String::from_str(registry);
    body.append(part.as_str());
    body
}

/// `part` stands somewhere in `whole`.
pub open spec fn occurs(whole: Seq<char>, part: Seq<char>) -> bool {
    exists|before: Seq<char>, after: Seq<char>| whole == #[trigger] (before + part + after)
}

/// An entry holds the line that a scraper reads.
proof fn lemma_line(name: Seq<char>, help: Seq<char>, kind: Seq<char>, value: nat)
    ensures
        occurs(entry(name, help, kind, value), line(name, value as u64)) || value > u64::MAX,
{
    let head = "# HELP "@ + name + " "@ + help + "\n# TYPE "@ + name + " "@ + kind;
    assert(entry(name, help, kind, value) =~= head + ("\n"@ + name + " "@ + text::decimal_text(value)
        + "\n"@) + Seq::<char>::empty());
}

/// What occurs in one part of a text occurs in the text.
proof fn lemma_occurs_in_part(a: Seq<char>, b: Seq<char>, part: Seq<char>)
    ensures
        occurs(a, part) ==> occurs(a + b, part),
        occurs(b, part) ==> occurs(a + b, part),
{
    if occurs(a, part) {
        let (x, y) = choose|x: Seq<char>, y: Seq<char>| a == #[trigger] (x + part + y);
        assert(a + b =~= x + part + (y + b));
    }
    if occurs(b, part) {
        let (x, y) = choose|x: Seq<char>, y: Seq<char>| b == #[trigger] (x + part + y);
        assert(a + b =~= (a + x) + part + y);
    }
}

/// The line of a metric: its name and its value.
pub open spec fn line(name: Seq<char>, value: u64) -> Seq<char> {
    "\n"@ + name + " "@ + text::decimal_text(value as nat) + "\n"@
}

/// Every gauge and counter of the broker is on the page, by its name and with its value.
pub proof fn every_metric_is_on_the_page(m: BrokerMetrics)
    ensures
        occurs(broker_metrics_text(m), line("dd_rust_network_mutex_keys"@, m.keys)),
        occurs(broker_metrics_text(m), line("dd_rust_network_mutex_holders"@, m.holders)),
        occurs(broker_metrics_text(m), line("dd_rust_network_mutex_waiters"@, m.waiters)),
        occurs(broker_metrics_text(m), line("dd_rust_network_mutex_clients"@, m.clients)),
        occurs(broker_metrics_text(m), line("dd_rust_network_mutex_pending_deadlines"@, m.pending_deadlines)),
        occurs(broker_metrics_text(m), line("dd_rust_network_mutex_ttl_evictions_total"@, m.ttl_evictions_total)),
        occurs(broker_metrics_text(m), line("dd_rust_network_mutex_max_concurrency_cap"@, m.max_concurrency_cap as u64)),
        occurs(broker_metrics_text(m), line("dd_rust_network_mutex_concurrency_cap_clamps_total"@, m.concurrency_cap_clamps_total)),
        occurs(broker_metrics_text(m), line("dd_rust_network_mutex_fencing_watermark"@, m.fencing_watermark)),
        occurs(broker_metrics_text(m), line("dd_rust_network_mutex_idle_keys_pruned_total"@, m.idle_keys_pruned_total)),
{
    let e0 = entry(
        "dd_rust_network_mutex_keys"@,
        "Number of distinct lock keys tracked by the broker."@,
        "gauge"@,
        m.keys as nat,
    );
    let e1 = entry(
        "dd_rust_network_mutex_holders"@,
        "Total active lock holders (exclusive + readers + writers)."@,
        "gauge"@,
        m.holders as nat,
    );
    let e2 = entry(
        "dd_rust_network_mutex_waiters"@,
        "Total queued lock requests across all keys."@,
        "gauge"@,
        m.waiters as nat,
    );
    let e3 = entry(
        "dd_rust_network_mutex_clients"@,
        "Connected broker clients."@,
        "gauge"@,
        m.clients as nat,
    );
    let e4 = entry(
        "dd_rust_network_mutex_pending_deadlines"@,
        "Holders currently registered in the periodic TTL deadline index."@,
        "gauge"@,
        m.pending_deadlines as nat,
    );
    let e5 = entry(
        "dd_rust_network_mutex_ttl_evictions_total"@,
        "Cumulative TTL-driven evictions performed by the periodic sweeper (upstream live-mutex#13)."@,
        "counter"@,
        m.ttl_evictions_total as nat,
    );
    let e6 = entry(
        "dd_rust_network_mutex_max_concurrency_cap"@,
        "Effective per-key concurrency ceiling enforced by the broker (upstream live-mutex semaphore-style locks)."@,
        "gauge"@,
        m.max_concurrency_cap as nat,
    );
    let e7 = entry(
        "dd_rust_network_mutex_concurrency_cap_clamps_total"@,
        "Cumulative `lock` requests whose `max` was clamped to the cap."@,
        "counter"@,
        m.concurrency_cap_clamps_total as nat,
    );
    let e8 = entry(
        "dd_rust_network_mutex_fencing_watermark"@,
        "Strictly monotonic upper bound on every fencing token issued since broker start; seeds freshly-materialised LockState entries to preserve cross-prune monotonicity."@,
        "counter"@,
        m.fencing_watermark as nat,
    );
    let e9 = entry(
        "dd_rust_network_mutex_idle_keys_pruned_total"@,
        "Cumulative idle LockState entries reclaimed by the periodic empty-key prune sweep."@,
        "counter"@,
        m.idle_keys_pruned_total as nat,
    );
    let t0 = e0;
    let t1 = t0 + e1;
    let t2 = t1 + e2;
    let t3 = t2 + e3;
    let t4 = t3 + e4;
    let t5 = t4 + e5;
    let t6 = t5 + e6;
    let t7 = t6 + e7;
    let t8 = t7 + e8;
    let t9 = t8 + e9;
    assert(t9 == broker_metrics_text(m));
    let l0 = line("dd_rust_network_mutex_keys"@, m.keys);
    lemma_line("dd_rust_network_mutex_keys"@, "Number of distinct lock keys tracked by the broker."@, "gauge"@, m.keys as nat);
    lemma_occurs_in_part(t0, e1, l0);
    lemma_occurs_in_part(t1, e2, l0);
    lemma_occurs_in_part(t2, e3, l0);
    lemma_occurs_in_part(t3, e4, l0);
    lemma_occurs_in_part(t4, e5, l0);
    lemma_occurs_in_part(t5, e6, l0);
    lemma_occurs_in_part(t6, e7, l0);
    lemma_occurs_in_part(t7, e8, l0);
    lemma_occurs_in_part(t8, e9, l0);
    let l1 = line("dd_rust_network_mutex_holders"@, m.holders);
    lemma_line("dd_rust_network_mutex_holders"@, "Total active lock holders (exclusive + readers + writers)."@, "gauge"@, m.holders as nat);
    lemma_occurs_in_part(t0, e1, l1);
    lemma_occurs_in_part(t1, e2, l1);
    lemma_occurs_in_part(t2, e3, l1);
    lemma_occurs_in_part(t3, e4, l1);
    lemma_occurs_in_part(t4, e5, l1);
    lemma_occurs_in_part(t5, e6, l1);
    lemma_occurs_in_part(t6, e7, l1);
    lemma_occurs_in_part(t7, e8, l1);
    lemma_occurs_in_part(t8, e9, l1);
    let l2 = line("dd_rust_network_mutex_waiters"@, m.waiters);
    lemma_line("dd_rust_network_mutex_waiters"@, "Total queued lock requests across all keys."@, "gauge"@, m.waiters as nat);
    lemma_occurs_in_part(t1, e2, l2);
    lemma_occurs_in_part(t2, e3, l2);
    lemma_occurs_in_part(t3, e4, l2);
    lemma_occurs_in_part(t4, e5, l2);
    lemma_occurs_in_part(t5, e6, l2);
    lemma_occurs_in_part(t6, e7, l2);
    lemma_occurs_in_part(t7, e8, l2);
    lemma_occurs_in_part(t8, e9, l2);
    let l3 = line("dd_rust_network_mutex_clients"@, m.clients);
    lemma_line("dd_rust_network_mutex_clients"@, "Connected broker clients."@, "gauge"@, m.clients as nat);
    lemma_occurs_in_part(t2, e3, l3);
    lemma_occurs_in_part(t3, e4, l3);
    lemma_occurs_in_part(t4, e5, l3);
    lemma_occurs_in_part(t5, e6, l3);
    lemma_occurs_in_part(t6, e7, l3);
    lemma_occurs_in_part(t7, e8, l3);
    lemma_occurs_in_part(t8, e9, l3);
    let l4 = line("dd_rust_network_mutex_pending_deadlines"@, m.pending_deadlines);
    lemma_line("dd_rust_network_mutex_pending_deadlines"@, "Holders currently registered in the periodic TTL deadline index."@, "gauge"@, m.pending_deadlines as nat);
    lemma_occurs_in_part(t3, e4, l4);
    lemma_occurs_in_part(t4, e5, l4);
    lemma_occurs_in_part(t5, e6, l4);
    lemma_occurs_in_part(t6, e7, l4);
    lemma_occurs_in_part(t7, e8, l4);
    lemma_occurs_in_part(t8, e9, l4);
    let l5 = line("dd_rust_network_mutex_ttl_evictions_total"@, m.ttl_evictions_total);
    lemma_line("dd_rust_network_mutex_ttl_evictions_total"@, "Cumulative TTL-driven evictions performed by the periodic sweeper (upstream live-mutex#13)."@, "counter"@, m.ttl_evictions_total as nat);
    lemma_occurs_in_part(t4, e5, l5);
    lemma_occurs_in_part(t5, e6, l5);
    lemma_occurs_in_part(t6, e7, l5);
    lemma_occurs_in_part(t7, e8, l5);
    lemma_occurs_in_part(t8, e9, l5);
    let l6 = line("dd_rust_network_mutex_max_concurrency_cap"@, m.max_concurrency_cap as u64);
    lemma_line("dd_rust_network_mutex_max_concurrency_cap"@, "Effective per-key concurrency ceiling enforced by the broker (upstream live-mutex semaphore-style locks)."@, "gauge"@, m.max_concurrency_cap as nat);
    lemma_occurs_in_part(t5, e6, l6);
    lemma_occurs_in_part(t6, e7, l6);
    lemma_occurs_in_part(t7, e8, l6);
    lemma_occurs_in_part(t8, e9, l6);
    let l7 = line("dd_rust_network_mutex_concurrency_cap_clamps_total"@, m.concurrency_cap_clamps_total);
    lemma_line("dd_rust_network_mutex_concurrency_cap_clamps_total"@, "Cumulative `lock` requests whose `max` was clamped to the cap."@, "counter"@, m.concurrency_cap_clamps_total as nat);
    lemma_occurs_in_part(t6, e7, l7);
    lemma_occurs_in_part(t7, e8, l7);
    lemma_occurs_in_part(t8, e9, l7);
    let l8 = line("dd_rust_network_mutex_fencing_watermark"@, m.fencing_watermark);
    lemma_line("dd_rust_network_mutex_fencing_watermark"@, "Strictly monotonic upper bound on every fencing token issued since broker start; seeds freshly-materialised LockState entries to preserve cross-prune monotonicity."@, "counter"@, m.fencing_watermark as nat);
    lemma_occurs_in_part(t7, e8, l8);
    lemma_occurs_in_part(t8, e9, l8);
    let l9 = line("dd_rust_network_mutex_idle_keys_pruned_total"@, m.idle_keys_pruned_total);
    lemma_line("dd_rust_network_mutex_idle_keys_pruned_total"@, "Cumulative idle LockState entries reclaimed by the periodic empty-key prune sweep."@, "counter"@, m.idle_keys_pruned_total as nat);
    lemma_occurs_in_part(t8, e9, l9);
}

} // verus!
