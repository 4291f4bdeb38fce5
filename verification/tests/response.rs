use toutates::response::{byte_range, BatchOutput, InferenceResponse, OutputSlice};
use toutates::ring::RingBufferIndex;
use toutates::supertensor::{split_batch, ExecutionTrace, WriteReservation};

fn trace(t: u64) -> ExecutionTrace {
    ExecutionTrace {
        queue_start: Some(t),
        exec_start: None,
        exec_end: None,
    }
}

fn slice(data_type: i32, shape: &[i64], bytes: &[u8]) -> OutputSlice {
    OutputSlice {
        data_type,
        shape: shape.to_vec(),
        bytes: bytes.to_vec(),
    }
}

fn reservation(batch_id: usize, start: usize, end: usize) -> WriteReservation {
    WriteReservation { batch_id, start, end }
}

#[test]
fn reservations_stay_in_order() {
    let mut response = InferenceResponse::new();
    assert_eq!(response.len(), 0);
    for i in 0..9 {
        response.push(reservation(i, i, i + 1));
    }
    assert_eq!(response.len(), 9);
    assert_eq!(response.reservation(0), reservation(0, 0, 1));
    assert_eq!(response.reservation(8), reservation(8, 8, 9));
}

#[test]
fn one_batch_is_passed_on() {
    let mut response = InferenceResponse::new();
    response.push(reservation(0, 0, 1));
    let results = vec![BatchOutput {
        values: vec![slice(1, &[4, 2], &[1, 2]), slice(2, &[], &[3])],
        trace: trace(5),
    }];
    let mut data = Vec::new();
    let (meta, times) = response.get_data(&results, &mut data);
    assert_eq!(data, vec![vec![1, 2], vec![3]]);
    assert_eq!(meta.len(), 2);
    assert_eq!((meta[0].data_type, meta[0].shape.clone()), (1, vec![4, 2]));
    assert_eq!((meta[1].data_type, meta[1].shape.clone()), (2, vec![]));
    assert_eq!(times, trace(5));
}

#[test]
fn batches_are_put_one_behind_the_other() {
    let mut response = InferenceResponse::new();
    for i in 0..3 {
        response.push(reservation(i, 0, 1));
    }
    let results = vec![
        BatchOutput {
            values: vec![slice(1, &[4, 2], &[1, 2]), slice(2, &[4], &[9])],
            trace: trace(5),
        },
        BatchOutput {
            values: vec![slice(7, &[3, 8], &[3])],
            trace: trace(6),
        },
        BatchOutput {
            values: vec![slice(1, &[2, 2], &[4]), slice(2, &[5], &[])],
            trace: trace(7),
        },
    ];
    let mut data = vec![vec![0u8], vec![], vec![42]];
    let (meta, times) = response.get_data(&results, &mut data);
    assert_eq!(data, vec![vec![0, 1, 2, 3, 4], vec![9], vec![42]]);
    assert_eq!((meta[0].data_type, meta[0].shape.clone()), (1, vec![9, 2]));
    assert_eq!((meta[1].data_type, meta[1].shape.clone()), (2, vec![9]));
    assert_eq!(times, trace(5));
}

#[test]
fn a_client_gets_its_own_items_in_order() {
    let start = RingBufferIndex { index: 14, ring_mask: 15, batch_mask: 3, batch_size: 4 };
    let sent: Vec<u8> = (100..107).collect();
    let mut ring = vec![[0u8; 4]; 4];
    let mut response = InferenceResponse::new();
    let mut results = Vec::new();
    for write in split_batch(start, sent.len()) {
        for (slot, item) in (write.batch_slot..write.end).zip(write.data_start..write.data_end) {
            ring[write.batch_id][slot] = sent[item];
        }
        let bytes = &ring[write.batch_id][write.batch_slot..write.end];
        response.push(reservation(write.batch_id, write.batch_slot, write.end));
        results.push(BatchOutput { values: vec![slice(2, &[4], bytes)], trace: trace(1) });
    }
    assert_eq!(ring, vec![[102, 103, 104, 105], [106, 0, 0, 0], [0; 4], [0, 0, 100, 101]]);
    let mut data = Vec::new();
    response.get_data(&results, &mut data);
    assert_eq!(data, vec![sent]);
}

#[test]
fn items_lie_one_behind_the_other() {
    assert_eq!(byte_range(2, 5, 12), (24, 60));
    assert_eq!(byte_range(3, 3, 8), (24, 24));
    assert_eq!(byte_range(1, 4, 0), (0, 0));
    let tensor: Vec<u8> = (0..20).collect();
    let (from, to) = byte_range(1, 3, 5);
    assert_eq!(tensor[from..to], [5, 6, 7, 8, 9, 10, 11, 12, 13, 14]);
}

#[test]
fn the_parts_of_a_request_are_timed() {
    let trace = ExecutionTrace { queue_start: Some(10), exec_start: Some(25), exec_end: Some(40) };
    let times = trace.times(47);
    assert_eq!((times.queued, times.executed, times.processed), (Some(15), Some(15), Some(7)));
    let times = trace.times(3);
    assert_eq!(times.processed, Some(0));
    let times = ExecutionTrace { queue_start: None, exec_start: None, exec_end: None }.times(3);
    assert_eq!((times.queued, times.executed, times.processed), (None, None, None));
}
