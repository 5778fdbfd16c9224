use jetstreamer_plugins::block_cost::BlockCost;
use jetstreamer_plugins::inflation_reward_cost::{
    cost_in, slot_bounds, BlockData, InflationRewardCost, MeasureError,
};
use jetstreamer_plugins::report::{build_report, select_partitions, tabulate_caps, CapRow, ReportError};
use jetstreamer_plugins::wire::{
    deserialize_and_sanitize, serialize_all, time_deserialize_and_sanitize, total_bytes,
};
use solana_sdk::message::{Message, VersionedMessage};
use solana_sdk::pubkey::Pubkey;
use solana_sdk::signature::Signature;
use solana_transaction::versioned::VersionedTransaction;
use std::time::Duration;

fn cost(tx_count: usize, nanos: u128) -> BlockCost {
    BlockCost {
        tx_count,
        reported_tx_count: tx_count as u64,
        bytes: 10 * tx_count,
        deser_sanitize_nanos: nanos,
    }
}

fn with_keys(count: u8) -> VersionedTransaction {
    let message = Message {
        account_keys: (0..count).map(|i| Pubkey::new_from_array([i; 32])).collect(),
        ..Message::default()
    };
    VersionedTransaction {
        signatures: vec![],
        message: VersionedMessage::Legacy(message),
    }
}

fn sanitary() -> VersionedTransaction {
    let mut message = Message {
        account_keys: vec![Pubkey::new_from_array([1; 32])],
        ..Message::default()
    };
    message.header.num_required_signatures = 1;
    VersionedTransaction {
        signatures: vec![Signature::default()],
        message: VersionedMessage::Legacy(message),
    }
}

fn too_long() -> VersionedTransaction {
    VersionedTransaction {
        signatures: vec![Signature::default(); 65_536],
        message: VersionedMessage::default(),
    }
}

fn unreadable() -> VersionedTransaction {
    let mut message = Message::default();
    // The first bit marks a versioned message, and there is no version five.
    message.header.num_required_signatures = 0x85;
    VersionedTransaction {
        signatures: vec![],
        message: VersionedMessage::Legacy(message),
    }
}

#[test]
fn transactions_are_measured_by_their_wire_bytes() {
    let txs = vec![VersionedTransaction::default(), with_keys(2)];
    let measured = InflationRewardCost::measure(&txs, 7).unwrap();
    assert_eq!(measured.tx_count, 2);
    assert_eq!(measured.reported_tx_count, 7);
    // No signatures, a header, no keys, a blockhash, no instructions; then the
    // same with two keys.
    assert_eq!(measured.bytes, 38 + 102);
}

#[test]
fn nothing_measured_has_no_bytes() {
    let measured = InflationRewardCost::measure(&[], 0).unwrap();
    assert_eq!((measured.tx_count, measured.bytes), (0, 0));
}

#[test]
fn what_cannot_be_serialized_is_refused() {
    let txs = vec![VersionedTransaction::default(), too_long()];
    assert_eq!(
        InflationRewardCost::measure(&txs, 2),
        Err(MeasureError::Serialize)
    );
    assert!(serialize_all(&txs).is_none());
}

#[test]
fn what_cannot_be_read_back_is_refused() {
    let txs = vec![unreadable(), VersionedTransaction::default()];
    assert_eq!(
        InflationRewardCost::measure(&txs, 2),
        Err(MeasureError::Deserialize)
    );
    // Failing to serialize comes first.
    assert_eq!(
        InflationRewardCost::measure(&[unreadable(), too_long()], 2),
        Err(MeasureError::Serialize)
    );
}

#[test]
fn wire_bytes_are_added_up_and_read_back() {
    let encoded = serialize_all(&[with_keys(1), with_keys(3)]).unwrap();
    assert_eq!(encoded[0].len(), 38 + 32);
    assert_eq!(encoded[1].len(), 38 + 96);
    assert_eq!(total_bytes(&encoded), Some(204));
    assert_eq!(deserialize_and_sanitize(&encoded), Some(0));
    assert_eq!(deserialize_and_sanitize(&vec![vec![1, 2, 3]]), None);
}

#[test]
fn sanitary_transactions_are_counted() {
    // A header without a signer that pays is not accepted.
    let txs = vec![sanitary(), with_keys(1), sanitary()];
    let encoded = serialize_all(&txs).unwrap();
    assert_eq!(deserialize_and_sanitize(&encoded), Some(2));
    let (accepted, span) = time_deserialize_and_sanitize(&encoded).unwrap();
    assert_eq!(accepted, 2);
    assert!(span < Duration::from_secs(20));
    assert!(time_deserialize_and_sanitize(&vec![vec![]]).is_none());
    assert_eq!(deserialize_and_sanitize(&vec![]), Some(0));
    // Those that are not accepted are measured all the same.
    let measured = InflationRewardCost::measure(&txs, 3).unwrap();
    assert_eq!(measured.tx_count, 3);
    assert_eq!(measured.bytes, 134 + 70 + 134);
}

#[test]
fn a_cost_has_the_whole_span_in_nanoseconds() {
    assert_eq!(
        cost_in(3, 4, 5, Duration::new(2, 7)),
        BlockCost {
            tx_count: 3,
            reported_tx_count: 4,
            bytes: 5,
            deser_sanitize_nanos: 2_000_000_007,
        }
    );
    assert_eq!(
        cost_in(0, 0, 0, Duration::MAX).deser_sanitize_nanos,
        (u64::MAX as u128) * 1_000_000_000 + 999_999_999
    );
}

#[test]
fn transactions_wait_for_their_block() {
    let mut measurement = InflationRewardCost::default();
    measurement.on_transaction(11, &with_keys(1));
    measurement.on_transaction(12, &with_keys(0));
    measurement.on_transaction(11, &with_keys(2));
    for (slot, num_partitions) in [(10, Some(2)), (11, None), (12, None)] {
        assert_eq!(
            measurement.on_block(&BlockData::Block {
                slot,
                num_partitions,
                executed_transaction_count: 1,
            }),
            Ok(())
        );
    }
    assert_eq!(measurement.on_block(&BlockData::Other), Ok(()));
    let report = measurement.report().unwrap();
    assert_eq!(report.boundary_slot, 10);
    assert_eq!(report.num_partitions, 2);
    assert_eq!(report.boundary_cost.tx_count, 0);
    assert_eq!(report.boundary_cost.reported_tx_count, 1);
    let seen: Vec<(usize, usize)> = report
        .partitions
        .iter()
        .map(|cost| (cost.tx_count, cost.bytes))
        .collect();
    assert_eq!(seen, vec![(2, 70 + 102), (1, 38)]);
    assert_eq!(report.mismatches, 1);
    assert_eq!(report.total_tx, 3);
    assert!(!report.incomplete);
}

#[test]
fn a_block_that_cannot_be_measured_leaves_no_cost() {
    let mut measurement = InflationRewardCost::default();
    measurement.on_transaction(5, &unreadable());
    let block = BlockData::Block {
        slot: 5,
        num_partitions: Some(3),
        executed_transaction_count: 1,
    };
    assert_eq!(measurement.on_block(&block), Err(MeasureError::Deserialize));
    assert_eq!(measurement.report().err(), Some(ReportError::NoBoundary));
    // Its transactions are gone.
    assert_eq!(measurement.on_block(&block), Ok(()));
    assert_eq!(measurement.report().unwrap().boundary_cost.tx_count, 0);
}

#[test]
fn there_is_no_report_without_a_boundary() {
    let mut measurement = InflationRewardCost::default();
    assert_eq!(measurement.report().err(), Some(ReportError::NoBoundary));
    measurement.record_block(3, cost(1, 1), None);
    assert_eq!(measurement.report().err(), Some(ReportError::NoBoundary));
    assert_eq!(measurement.name(), "inflation-reward-cost");
}

#[test]
fn counts_that_do_not_fit_are_told() {
    let mut measurement = InflationRewardCost::default();
    measurement.record_block(0, cost(0, 0), Some(2));
    let mut huge = cost(0, 0);
    huge.tx_count = usize::MAX;
    measurement.record_block(1, huge, None);
    assert_eq!(measurement.report().unwrap().total_tx, usize::MAX);
    measurement.record_block(2, cost(1, 0), None);
    assert_eq!(measurement.report().err(), Some(ReportError::CountOverflow));
}

#[test]
fn partitions_are_the_first_blocks_after_the_boundary() {
    let mut measurement = InflationRewardCost::default();
    for slot in (90..120).rev() {
        if slot != 103 {
            measurement.record_block(slot, cost(slot as usize, 1), None);
        }
    }
    measurement.record_block(100, cost(1, 5), Some(4));
    let report = measurement.report().unwrap();
    let seen: Vec<usize> = report.partitions.iter().map(|cost| cost.tx_count).collect();
    assert_eq!(seen, vec![101, 102, 104, 105]);
    assert_eq!(report.boundary_cost, cost(1, 5));
    assert_eq!(report.total_tx, 412);
    assert_eq!(report.mismatches, 0);
}

#[test]
fn a_later_boundary_replaces_an_earlier_one() {
    let mut measurement = InflationRewardCost::default();
    measurement.record_block(1, cost(1, 1), Some(1));
    measurement.record_block(2, cost(2, 1), None);
    measurement.record_block(3, cost(3, 1), Some(5));
    measurement.record_block(4, cost(4, 1), None);
    let report = measurement.report().unwrap();
    assert_eq!((report.boundary_slot, report.num_partitions), (3, 5));
    assert_eq!(report.partitions, vec![cost(4, 1)]);
    assert!(report.incomplete);
}

#[test]
fn ties_in_cost_stay_in_slot_order() {
    let mut measurement = InflationRewardCost::default();
    measurement.record_block(0, cost(0, 0), Some(5));
    for (slot, nanos) in [(1, 3), (2, 8), (3, 3), (4, 9), (5, 8)] {
        measurement.record_block(slot, cost(slot as usize, nanos), None);
    }
    let report = measurement.report().unwrap();
    let ranked: Vec<usize> = report.by_cost.iter().map(|cost| cost.tx_count).collect();
    assert_eq!(ranked, vec![4, 2, 5, 1, 3]);
}

#[test]
fn no_choice_of_blocks_outweighs_the_most_expensive() {
    let nanos = [4u128, 19, 7, 7, 2, 30];
    let mut measurement = InflationRewardCost::default();
    measurement.record_block(0, cost(0, 0), Some(6));
    for (i, nanos) in nanos.iter().enumerate() {
        measurement.record_block(1 + i as u64, cost(1, *nanos), None);
    }
    let report = measurement.report().unwrap();
    for choice in 0..64u32 {
        let k = choice.count_ones() as usize;
        let chosen: u128 = (0..6)
            .filter(|i| choice & (1 << i) != 0)
            .map(|i| report.partitions[i].deser_sanitize_nanos)
            .sum();
        let worst: u128 = report.by_cost[..k]
            .iter()
            .map(|cost| cost.deser_sanitize_nanos)
            .sum();
        assert!(chosen <= worst);
    }
}

/// The line for `k` blocks that each take one nanosecond and one byte, beside a
/// boundary block that takes a thousand nanoseconds and two thousand bytes.
fn row(k: usize, no_cap: bool) -> CapRow {
    CapRow {
        k,
        blocks_read: k + 1,
        bytes: 2000 + k as u128,
        nanos: Some(1000 + k as u128),
        no_cap,
    }
}

fn table(num_partitions: u64, measured: usize) -> Vec<CapRow> {
    let boundary = BlockCost {
        bytes: 2000,
        deser_sanitize_nanos: 1000,
        ..BlockCost::default()
    };
    let block = BlockCost {
        bytes: 1,
        deser_sanitize_nanos: 1,
        ..BlockCost::default()
    };
    tabulate_caps(num_partitions, boundary, &vec![block; measured])
}

#[test]
fn the_table_ends_with_the_first_cap_that_lets_all_through() {
    assert_eq!(table(0, 0), vec![row(0, true)]);
    assert_eq!(table(16, 16), vec![row(16, true)]);
    assert_eq!(table(17, 17), vec![row(16, false), row(17, true)]);
    assert_eq!(
        table(100, 70),
        vec![row(16, false), row(32, false), row(64, false), row(70, true)]
    );
    assert_eq!(
        table(600, 600),
        vec![
            row(16, false),
            row(32, false),
            row(64, false),
            row(128, false),
            row(256, false),
            row(512, false),
            row(600, true)
        ]
    );
    assert_eq!(table(512, 512).len(), 6);
}

#[test]
fn lines_add_up_the_most_expensive_blocks() {
    let mut measurement = InflationRewardCost::default();
    measurement.record_block(50, cost(3, 7), Some(20));
    for slot in 51..71u64 {
        measurement.record_block(slot, cost(slot as usize, slot as u128), None);
    }
    let report = measurement.report().unwrap();
    assert_eq!(report.total_tx, 1210);
    assert_eq!(report.total_bytes, 12_100);
    assert_eq!(report.total_nanos, Some(1210));
    // Of the blocks 51 to 70, the sixteen from 55 on cost most.
    assert_eq!(
        report.rows,
        vec![
            CapRow {
                k: 16,
                blocks_read: 17,
                bytes: 30 + 10_000,
                nanos: Some(7 + 1000),
                no_cap: false
            },
            CapRow {
                k: 20,
                blocks_read: 21,
                bytes: 30 + 12_100,
                nanos: Some(7 + 1210),
                no_cap: true
            },
        ]
    );
}

#[test]
fn times_that_do_not_fit_are_told() {
    let mut measurement = InflationRewardCost::default();
    measurement.record_block(0, cost(0, 1), Some(2));
    measurement.record_block(1, cost(0, u128::MAX - 1), None);
    let report = measurement.report().unwrap();
    assert_eq!(report.rows[0].nanos, Some(u128::MAX));
    assert_eq!(report.total_nanos, Some(u128::MAX - 1));
    measurement.record_block(2, cost(7, 1), None);
    let report = measurement.report().unwrap();
    assert_eq!(report.rows[0].nanos, None);
    assert_eq!(report.total_nanos, Some(u128::MAX));
    assert_eq!(report.total_tx, 7);
    measurement.record_block(1, cost(0, u128::MAX), None);
    assert_eq!(measurement.report().unwrap().total_nanos, None);
}

#[test]
fn a_report_takes_the_boundary_cost_that_it_is_given() {
    let entries = vec![(4, cost(4, 40)), (3, cost(3, 30)), (5, cost(5, 50))];
    let report = build_report(&entries, Some(cost(9, 7)), 3, 2).unwrap();
    assert_eq!(report.boundary_cost, cost(9, 7));
    assert_eq!(report.partitions, vec![cost(4, 40), cost(5, 50)]);
    assert_eq!(report.by_cost, vec![cost(5, 50), cost(4, 40)]);
    assert_eq!(
        report.rows,
        vec![CapRow {
            k: 2,
            blocks_read: 3,
            bytes: 180,
            nanos: Some(97),
            no_cap: true
        }]
    );
    let report = build_report(&entries, None, 3, 2).unwrap();
    assert_eq!(report.boundary_cost, BlockCost::default());
    assert_eq!((report.rows[0].bytes, report.rows[0].nanos), (90, Some(90)));
    let huge = BlockCost {
        tx_count: usize::MAX,
        ..BlockCost::default()
    };
    assert_eq!(
        build_report(&vec![(4, huge), (5, cost(1, 1))], None, 3, 2).err(),
        Some(ReportError::CountOverflow)
    );
}

#[test]
fn entries_may_come_in_any_order() {
    let entries = vec![(9, cost(9, 0)), (2, cost(2, 0)), (5, cost(5, 0)), (7, cost(7, 0))];
    assert_eq!(
        select_partitions(&entries, 2, 2),
        vec![cost(5, 0), cost(7, 0)]
    );
    assert!(select_partitions(&entries, 9, 2).is_empty());
    assert!(select_partitions(&entries, 0, 0).is_empty());
}

#[test]
fn the_window_has_a_default() {
    assert_eq!(slot_bounds(432_000, None), Some((432_000, 432_800)));
    assert_eq!(slot_bounds(5, Some(0)), Some((5, 5)));
    assert_eq!(slot_bounds(u64::MAX, Some(1)), None);
}
