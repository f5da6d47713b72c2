use vstd::prelude::*;
use vstd::string::StringExecFns;

use crate::kafka_types::TopicPartition;
use crate::lag_register::{GroupLag, LagRegister};
use crate::register::PartitionOffsetsRegister;
use crate::text_format::{dec_of, u32_to_dec, u64_to_dec};

verus! {

/// The two comment lines announcing a gauge family, each ending in a
/// newline.
pub open spec fn spec_header(name: Seq<char>, help: Seq<char>) -> Seq<char> {
    "# HELP "@ + name + " "@ + help + "\n# TYPE "@ + name + " gauge\n"@
}

/// One sample line of a family labelled by cluster, group, topic, partition
/// and owning member.
pub open spec fn spec_group_line(
    name: Seq<char>,
    cluster: Seq<char>,
    group: Seq<char>,
    topic: Seq<char>,
    partition: u32,
    member: Seq<char>,
    value: u64,
) -> Seq<char> {
    name + "{cluster_id=\""@ + cluster + "\",group=\""@ + group + "\",topic=\""@ + topic
        + "\",partition=\""@ + dec_of(partition as nat) + "\",member_id=\""@ + member + "\"} "@
        + dec_of(value as nat)
}

/// One sample line of a family labelled by cluster, topic and partition.
pub open spec fn spec_partition_line(
    name: Seq<char>,
    cluster: Seq<char>,
    topic: Seq<char>,
    partition: u32,
    value: u64,
) -> Seq<char> {
    name + "{cluster_id=\""@ + cluster + "\",topic=\""@ + topic + "\",partition=\""@ + dec_of(
        partition as nat,
    ) + "\"} "@ + dec_of(value as nat)
}

/// One sample line of a tracked-offset family, carrying the observation
/// instant as an extra label.
pub open spec fn spec_tracked_line(
    name: Seq<char>,
    cluster: Seq<char>,
    topic: Seq<char>,
    partition: u32,
    at_ms: u64,
    value: u64,
) -> Seq<char> {
    name + "{cluster_id=\""@ + cluster + "\",topic=\""@ + topic + "\",partition=\""@ + dec_of(
        partition as nat,
    ) + "\",tracked_at_ms=\""@ + dec_of(at_ms as nat) + "\"} "@ + dec_of(value as nat)
}

/// The member label of a lag row: the owning member's id, or empty when
/// unknown.
pub open spec fn spec_member_label(gl: GroupLag) -> Seq<char> {
    match gl.owner_member_id {
        Some(m) => m@,
        None => ""@,
    }
}

/// Lines of `consumer_partition_offset`: one per lag row, valued by the
/// committed offset.
pub open spec fn spec_consumer_offset_lines(
    rows: Seq<(String, TopicPartition, GroupLag)>,
    cluster: Seq<char>,
) -> Seq<char>
    decreases rows.len(),
{
    if rows.len() == 0 {
        Seq::<char>::empty()
    } else {
        let r = rows.last();
        spec_consumer_offset_lines(rows.drop_last(), cluster) + spec_group_line(
            "consumer_partition_offset"@,
            cluster,
            r.0@,
            r.1.topic@,
            r.1.partition,
            spec_member_label(r.2),
            r.2.committed_offset,
        ) + "\n"@
    }
}

/// Lines of `consumer_partition_lag_offset`: rows whose offset lag is
/// unknown are skipped.
pub open spec fn spec_lag_offset_lines(
    rows: Seq<(String, TopicPartition, GroupLag)>,
    cluster: Seq<char>,
) -> Seq<char>
    decreases rows.len(),
{
    if rows.len() == 0 {
        Seq::<char>::empty()
    } else {
        let r = rows.last();
        spec_lag_offset_lines(rows.drop_last(), cluster) + (match r.2.offset_lag {
            Some(v) => spec_group_line(
                "consumer_partition_lag_offset"@,
                cluster,
                r.0@,
                r.1.topic@,
                r.1.partition,
                spec_member_label(r.2),
                v,
            ) + "\n"@,
            None => Seq::<char>::empty(),
        })
    }
}

/// Lines of `consumer_partition_lag_milliseconds`: rows whose time lag is
/// unknown are skipped.
pub open spec fn spec_lag_ms_lines(
    rows: Seq<(String, TopicPartition, GroupLag)>,
    cluster: Seq<char>,
) -> Seq<char>
    decreases rows.len(),
{
    if rows.len() == 0 {
        Seq::<char>::empty()
    } else {
        let r = rows.last();
        spec_lag_ms_lines(rows.drop_last(), cluster) + (match r.2.time_lag_ms {
            Some(v) => spec_group_line(
                "consumer_partition_lag_milliseconds"@,
                cluster,
                r.0@,
                r.1.topic@,
                r.1.partition,
                spec_member_label(r.2),
                v,
            ) + "\n"@,
            None => Seq::<char>::empty(),
        })
    }
}

/// Lines of `partition_earliest_available_offset`: partitions the register
/// cannot answer for yet are skipped.
pub open spec fn spec_earliest_available_lines(
    tps: Seq<TopicPartition>,
    po: PartitionOffsetsRegister,
    cluster: Seq<char>,
) -> Seq<char>
    decreases tps.len(),
{
    if tps.len() == 0 {
        Seq::<char>::empty()
    } else {
        let tp = tps.last();
        spec_earliest_available_lines(tps.drop_last(), po, cluster) + (if po.spec_has(
            tp.topic@,
            tp.partition,
        ) && po.spec_est(tp.topic@, tp.partition).history_seq().len() > 0 {
            spec_partition_line(
                "partition_earliest_available_offset"@,
                cluster,
                tp.topic@,
                tp.partition,
                po.spec_est(tp.topic@, tp.partition).spec_earliest_available(),
            ) + "\n"@
        } else {
            Seq::<char>::empty()
        })
    }
}

/// Lines of `partition_latest_available_offset`: the tail watermark of each
/// answerable partition.
pub open spec fn spec_latest_available_lines(
    tps: Seq<TopicPartition>,
    po: PartitionOffsetsRegister,
    cluster: Seq<char>,
) -> Seq<char>
    decreases tps.len(),
{
    if tps.len() == 0 {
        Seq::<char>::empty()
    } else {
        let tp = tps.last();
        spec_latest_available_lines(tps.drop_last(), po, cluster) + (if po.spec_has(
            tp.topic@,
            tp.partition,
        ) && po.spec_est(tp.topic@, tp.partition).history_seq().len() > 0 {
            spec_partition_line(
                "partition_latest_available_offset"@,
                cluster,
                tp.topic@,
                tp.partition,
                po.spec_est(tp.topic@, tp.partition).history_seq().last().offset,
            ) + "\n"@
        } else {
            Seq::<char>::empty()
        })
    }
}

/// Lines of `partition_earliest_tracked_offset`: the head of each
/// answerable partition's history, with its instant.
pub open spec fn spec_earliest_tracked_lines(
    tps: Seq<TopicPartition>,
    po: PartitionOffsetsRegister,
    cluster: Seq<char>,
) -> Seq<char>
    decreases tps.len(),
{
    if tps.len() == 0 {
        Seq::<char>::empty()
    } else {
        let tp = tps.last();
        spec_earliest_tracked_lines(tps.drop_last(), po, cluster) + (if po.spec_has(
            tp.topic@,
            tp.partition,
        ) && po.spec_est(tp.topic@, tp.partition).history_seq().len() > 0 {
            spec_tracked_line(
                "partition_earliest_tracked_offset"@,
                cluster,
                tp.topic@,
                tp.partition,
                po.spec_est(tp.topic@, tp.partition).history_seq()[0].at_ms,
                po.spec_est(tp.topic@, tp.partition).history_seq()[0].offset,
            ) + "\n"@
        } else {
            Seq::<char>::empty()
        })
    }
}

/// Lines of `partition_latest_tracked_offset`: the tail of each answerable
/// partition's history, with its instant.
pub open spec fn spec_latest_tracked_lines(
    tps: Seq<TopicPartition>,
    po: PartitionOffsetsRegister,
    cluster: Seq<char>,
) -> Seq<char>
    decreases tps.len(),
{
    if tps.len() == 0 {
        Seq::<char>::empty()
    } else {
        let tp = tps.last();
        spec_latest_tracked_lines(tps.drop_last(), po, cluster) + (if po.spec_has(
            tp.topic@,
            tp.partition,
        ) && po.spec_est(tp.topic@, tp.partition).history_seq().len() > 0 {
            spec_tracked_line(
                "partition_latest_tracked_offset"@,
                cluster,
                tp.topic@,
                tp.partition,
                po.spec_est(tp.topic@, tp.partition).history_seq().last().at_ms,
                po.spec_est(tp.topic@, tp.partition).history_seq().last().offset,
            ) + "\n"@
        } else {
            Seq::<char>::empty()
        })
    }
}

/// The whole bespoke part of the exposition body: the seven gauge families
/// of the engine, in order, separated by blank lines.
pub open spec fn spec_metrics_body(
    cluster: Seq<char>,
    rows: Seq<(String, TopicPartition, GroupLag)>,
    tps: Seq<TopicPartition>,
    po: PartitionOffsetsRegister,
) -> Seq<char> {
    spec_header("consumer_partition_offset"@, "Last committed offset of a group on a partition"@)
        + spec_consumer_offset_lines(rows, cluster) + "\n"@ + spec_header(
        "consumer_partition_lag_offset"@,
        "Lag of a group on a partition, in offsets"@,
    ) + spec_lag_offset_lines(rows, cluster) + "\n"@ + spec_header(
        "consumer_partition_lag_milliseconds"@,
        "Lag of a group on a partition, in milliseconds"@,
    ) + spec_lag_ms_lines(rows, cluster) + "\n"@ + spec_header(
        "partition_earliest_available_offset"@,
        "Earliest offset available on a partition"@,
    ) + spec_earliest_available_lines(tps, po, cluster) + "\n"@ + spec_header(
        "partition_latest_available_offset"@,
        "Latest offset available on a partition"@,
    ) + spec_latest_available_lines(tps, po, cluster) + "\n"@ + spec_header(
        "partition_earliest_tracked_offset"@,
        "Earliest tracked offset of a partition"@,
    ) + spec_earliest_tracked_lines(tps, po, cluster) + "\n"@ + spec_header(
        "partition_latest_tracked_offset"@,
        "Latest tracked offset of a partition"@,
    ) + spec_latest_tracked_lines(tps, po, cluster) + "\n"@
}

/// Render the two comment lines announcing a gauge family.
fn header(name: &str, help: &str) -> (r: String)
    ensures
        r@ == spec_header(name@, help@),
{
    let mut s = "# HELP ".to_owned();
    s.append(name);
    s.append(" ");
    s.append(help);
    s.append("\n# TYPE ");
    s.append(name);
    s.append(" gauge\n");
    proof {
        assert(s@ =~= spec_header(name@, help@));
    }
    s
}

/// Render one group-labelled sample line.
fn group_line(
    name: &str,
    cluster: &str,
    group: &str,
    topic: &str,
    partition: u32,
    member: &str,
    value: u64,
) -> (r: String)
    ensures
        r@ == spec_group_line(name@, cluster@, group@, topic@, partition, member@, value),
{
    let mut s = name.to_owned();
    s.append("{cluster_id=\"");
    s.append(cluster);
    s.append("\",group=\"");
    s.append(group);
    s.append("\",topic=\"");
    s.append(topic);
    s.append("\",partition=\"");
    let pd = u32_to_dec(partition);
    s.append(pd.as_str());
    s.append("\",member_id=\"");
    s.append(member);
    s.append("\"} ");
    let vd = u64_to_dec(value);
    s.append(vd.as_str());
    proof {
        assert(s@ =~= spec_group_line(name@, cluster@, group@, topic@, partition, member@, value));
    }
    s
}

/// Render one partition-labelled sample line.
fn partition_line(name: &str, cluster: &str, topic: &str, partition: u32, value: u64) -> (r:
    String)
    ensures
        r@ == spec_partition_line(name@, cluster@, topic@, partition, value),
{
    let mut s = name.to_owned();
    s.append("{cluster_id=\"");
    s.append(cluster);
    s.append("\",topic=\"");
    s.append(topic);
    s.append("\",partition=\"");
    let pd = u32_to_dec(partition);
    s.append(pd.as_str());
    s.append("\"} ");
    let vd = u64_to_dec(value);
    s.append(vd.as_str());
    proof {
        assert(s@ =~= spec_partition_line(name@, cluster@, topic@, partition, value));
    }
    s
}

/// Render one tracked-offset sample line.
fn tracked_line(
    name: &str,
    cluster: &str,
    topic: &str,
    partition: u32,
    at_ms: u64,
    value: u64,
) -> (r: String)
    ensures
        r@ == spec_tracked_line(name@, cluster@, topic@, partition, at_ms, value),
{
    let mut s = name.to_owned();
    s.append("{cluster_id=\"");
    s.append(cluster);
    s.append("\",topic=\"");
    s.append(topic);
    s.append("\",partition=\"");
    let pd = u32_to_dec(partition);
    s.append(pd.as_str());
    s.append("\",tracked_at_ms=\"");
    let ad = u64_to_dec(at_ms);
    s.append(ad.as_str());
    s.append("\"} ");
    let vd = u64_to_dec(value);
    s.append(vd.as_str());
    proof {
        assert(s@ =~= spec_tracked_line(name@, cluster@, topic@, partition, at_ms, value));
    }
    s
}

/// The owning member's id of a lag row, or the empty string.
fn member_label(gl: &GroupLag) -> (r: &str)
    ensures
        r@ == spec_member_label(*gl),
{
    match &gl.owner_member_id {
        Some(m) => m.as_str(),
        None => "",
    }
}

/// Build the bespoke part of the Prometheus text-exposition body: the seven
/// gauge families of the engine in order, one sample line per answerable
/// row, families separated by blank lines. Rows and partitions the
/// registers cannot answer for are skipped, never failed.
pub fn prometheus_metrics(
    cluster_id: &str,
    tps: &Vec<TopicPartition>,
    lag: &LagRegister,
    po: &PartitionOffsetsRegister,
) -> (r: String)
    requires
        po.well_formed(),
    ensures
        r@ == spec_metrics_body(cluster_id@, lag.entries(), tps@, *po),
{
    let rows = lag.rows();
    let nrows = rows.len();
    let ntps = tps.len();

    let mut out = header("consumer_partition_offset", "Last committed offset of a group on a partition");
    let ghost h0 = out@;
    let mut i: usize = 0;
    while i < nrows
        invariant
            nrows == rows@.len(),
            rows@ == lag.entries(),
            0 <= i <= nrows,
            out@ == h0 + spec_consumer_offset_lines(rows@.take(i as int), cluster_id@),
        decreases nrows - i,
    {
        proof {
            assert(rows@.take(i + 1).drop_last() =~= rows@.take(i as int));
            assert(rows@.take(i + 1).last() == rows@[i as int]);
        }
        let row = &rows[i];
        let line = group_line(
            "consumer_partition_offset",
            cluster_id,
            row.0.as_str(),
            row.1.topic.as_str(),
            row.1.partition,
            member_label(&row.2),
            row.2.committed_offset,
        );
        out.append(line.as_str());
        out.append("\n");
        proof {
            assert(out@ =~= h0 + spec_consumer_offset_lines(rows@.take(i + 1), cluster_id@));
        }
        i += 1;
    }
    proof {
        assert(rows@.take(nrows as int) =~= rows@);
    }
    out.append("\n");

    let h = header("consumer_partition_lag_offset", "Lag of a group on a partition, in offsets");
    out.append(h.as_str());
    let ghost h1 = out@;
    let mut i: usize = 0;
    while i < nrows
        invariant
            nrows == rows@.len(),
            rows@ == lag.entries(),
            0 <= i <= nrows,
            out@ == h1 + spec_lag_offset_lines(rows@.take(i as int), cluster_id@),
        decreases nrows - i,
    {
        proof {
            assert(rows@.take(i + 1).drop_last() =~= rows@.take(i as int));
            assert(rows@.take(i + 1).last() == rows@[i as int]);
        }
        let row = &rows[i];
        match row.2.offset_lag {
            Some(v) => {
                let line = group_line(
                    "consumer_partition_lag_offset",
                    cluster_id,
                    row.0.as_str(),
                    row.1.topic.as_str(),
                    row.1.partition,
                    member_label(&row.2),
                    v,
                );
                out.append(line.as_str());
                out.append("\n");
            },
            None => {},
        }
        proof {
            assert(out@ =~= h1 + spec_lag_offset_lines(rows@.take(i + 1), cluster_id@));
        }
        i += 1;
    }
    proof {
        assert(rows@.take(nrows as int) =~= rows@);
    }
    out.append("\n");

    let h = header(
        "consumer_partition_lag_milliseconds",
        "Lag of a group on a partition, in milliseconds",
    );
    out.append(h.as_str());
    let ghost h2 = out@;
    let mut i: usize = 0;
    while i < nrows
        invariant
            nrows == rows@.len(),
            rows@ == lag.entries(),
            0 <= i <= nrows,
            out@ == h2 + spec_lag_ms_lines(rows@.take(i as int), cluster_id@),
        decreases nrows - i,
    {
        proof {
            assert(rows@.take(i + 1).drop_last() =~= rows@.take(i as int));
            assert(rows@.take(i + 1).last() == rows@[i as int]);
        }
        let row = &rows[i];
        match row.2.time_lag_ms {
            Some(v) => {
                let line = group_line(
                    "consumer_partition_lag_milliseconds",
                    cluster_id,
                    row.0.as_str(),
                    row.1.topic.as_str(),
                    row.1.partition,
                    member_label(&row.2),
                    v,
                );
                out.append(line.as_str());
                out.append("\n");
            },
            None => {},
        }
        proof {
            assert(out@ =~= h2 + spec_lag_ms_lines(rows@.take(i + 1), cluster_id@));
        }
        i += 1;
    }
    proof {
        assert(rows@.take(nrows as int) =~= rows@);
    }
    out.append("\n");

    let h = header(
        "partition_earliest_available_offset",
        "Earliest offset available on a partition",
    );
    out.append(h.as_str());
    let ghost h3 = out@;
    let mut i: usize = 0;
    while i < ntps
        invariant
            po.well_formed(),
            ntps == tps@.len(),
            0 <= i <= ntps,
            out@ == h3 + spec_earliest_available_lines(tps@.take(i as int), *po, cluster_id@),
        decreases ntps - i,
    {
        proof {
            assert(tps@.take(i + 1).drop_last() =~= tps@.take(i as int));
            assert(tps@.take(i + 1).last() == tps@[i as int]);
        }
        let tp = &tps[i];
        match po.get_earliest_available_offset(tp) {
            Ok(v) => {
                let line = partition_line(
                    "partition_earliest_available_offset",
                    cluster_id,
                    tp.topic.as_str(),
                    tp.partition,
                    v,
                );
                out.append(line.as_str());
                out.append("\n");
            },
            Err(_) => {},
        }
        proof {
            assert(out@ =~= h3 + spec_earliest_available_lines(tps@.take(i + 1), *po, cluster_id@));
        }
        i += 1;
    }
    proof {
        assert(tps@.take(ntps as int) =~= tps@);
    }
    out.append("\n");

    let h = header("partition_latest_available_offset", "Latest offset available on a partition");
    out.append(h.as_str());
    let ghost h4 = out@;
    let mut i: usize = 0;
    while i < ntps
        invariant
            po.well_formed(),
            ntps == tps@.len(),
            0 <= i <= ntps,
            out@ == h4 + spec_latest_available_lines(tps@.take(i as int), *po, cluster_id@),
        decreases ntps - i,
    {
        proof {
            assert(tps@.take(i + 1).drop_last() =~= tps@.take(i as int));
            assert(tps@.take(i + 1).last() == tps@[i as int]);
        }
        let tp = &tps[i];
        match po.get_latest_available_offset(tp) {
            Ok(v) => {
                let line = partition_line(
                    "partition_latest_available_offset",
                    cluster_id,
                    tp.topic.as_str(),
                    tp.partition,
                    v,
                );
                out.append(line.as_str());
                out.append("\n");
            },
            Err(_) => {},
        }
        proof {
            assert(out@ =~= h4 + spec_latest_available_lines(tps@.take(i + 1), *po, cluster_id@));
        }
        i += 1;
    }
    proof {
        assert(tps@.take(ntps as int) =~= tps@);
    }
    out.append("\n");

    let h = header("partition_earliest_tracked_offset", "Earliest tracked offset of a partition");
    out.append(h.as_str());
    let ghost h5 = out@;
    let mut i: usize = 0;
    while i < ntps
        invariant
            po.well_formed(),
            ntps == tps@.len(),
            0 <= i <= ntps,
            out@ == h5 + spec_earliest_tracked_lines(tps@.take(i as int), *po, cluster_id@),
        decreases ntps - i,
    {
        proof {
            assert(tps@.take(i + 1).drop_last() =~= tps@.take(i as int));
            assert(tps@.take(i + 1).last() == tps@[i as int]);
        }
        let tp = &tps[i];
        match po.get_earliest_tracked_offset(tp) {
            Ok(to) => {
                let line = tracked_line(
                    "partition_earliest_tracked_offset",
                    cluster_id,
                    tp.topic.as_str(),
                    tp.partition,
                    to.at_ms,
                    to.offset,
                );
                out.append(line.as_str());
                out.append("\n");
            },
            Err(_) => {},
        }
        proof {
            assert(out@ =~= h5 + spec_earliest_tracked_lines(tps@.take(i + 1), *po, cluster_id@));
        }
        i += 1;
    }
    proof {
        assert(tps@.take(ntps as int) =~= tps@);
    }
    out.append("\n");

    let h = header("partition_latest_tracked_offset", "Latest tracked offset of a partition");
    out.append(h.as_str());
    let ghost h6 = out@;
    let mut i: usize = 0;
    while i < ntps
        invariant
            po.well_formed(),
            ntps == tps@.len(),
            0 <= i <= ntps,
            out@ == h6 + spec_latest_tracked_lines(tps@.take(i as int), *po, cluster_id@),
        decreases ntps - i,
    {
        proof {
            assert(tps@.take(i + 1).drop_last() =~= tps@.take(i as int));
            assert(tps@.take(i + 1).last() == tps@[i as int]);
        }
        let tp = &tps[i];
        match po.get_latest_tracked_offset(tp) {
            Ok(to) => {
                let line = tracked_line(
                    "partition_latest_tracked_offset",
                    cluster_id,
                    tp.topic.as_str(),
                    tp.partition,
                    to.at_ms,
                    to.offset,
                );
                out.append(line.as_str());
                out.append("\n");
            },
            Err(_) => {},
        }
        proof {
            assert(out@ =~= h6 + spec_latest_tracked_lines(tps@.take(i + 1), *po, cluster_id@));
        }
        i += 1;
    }
    proof {
        assert(tps@.take(ntps as int) =~= tps@);
    }
    out.append("\n");

    proof {
        assert(out@ =~= spec_metrics_body(cluster_id@, lag.entries(), tps@, *po));
    }
    out
}

} // verus!
