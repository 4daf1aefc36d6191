use sledgehammer_bindgen::bindings::{Bindings, RuntimeJs};
use sledgehammer_bindgen::channel::{Channel, ChannelLayout};

/// What the generated `run()` does with a message: read little-endian words,
/// dispatch on the low `op_size` bits, shift, until the end code.
fn run_in_js(msg: &[u8], layout: &ChannelLayout) -> Option<Vec<u8>> {
    let mask: u32 = (1u32 << layout.op_size) - 1;
    let mut calls = Vec::new();
    let mut p = 0;
    loop {
        if p + 4 > msg.len() {
            return None;
        }
        let mut op = u32::from_le_bytes([msg[p], msg[p + 1], msg[p + 2], msg[p + 3]]);
        p += 4;
        for _ in 0..layout.reads_per_u32 {
            let code = (op & mask) as u8;
            if code == layout.end_msg {
                return Some(calls);
            }
            if code < layout.end_msg {
                calls.push(code);
            }
            op >>= layout.op_size;
        }
    }
}

fn bindings_with(functions: usize) -> Bindings {
    Bindings {
        buffer: "Channel".to_string(),
        function_js: (0..functions).map(|i| format!("f{}();", i)).collect(),
        foreign_items: Vec::new(),
        initialize: String::new(),
        runtime: RuntimeJs {
            global_js: Vec::new(),
            pre_run_js: Vec::new(),
            metadata_pre_run_js: String::new(),
            msg_ptr_read_js: String::new(),
            msg_moved_read_js: String::new(),
        },
    }
}

fn layout_for(functions: usize) -> ChannelLayout {
    bindings_with(functions).channel()
}

#[test]
fn layout_of_a_few_functions_uses_bytes() {
    let layout = layout_for(3);
    assert_eq!(layout.op_size, 8);
    assert_eq!(layout.reads_per_u32, 4);
    assert_eq!(layout.end_msg, 3);
    assert_eq!(layout.no_op, 4);
}

#[test]
fn layout_of_many_functions_uses_bytes() {
    let layout = layout_for(254);
    assert_eq!(layout.op_size, 8);
    assert_eq!(layout.reads_per_u32, 4);
    assert_eq!(layout.end_msg, 254);
    assert_eq!(layout.no_op, 255);
}

#[test]
fn new_channel_is_empty() {
    let c = Channel::new(layout_for(3));
    assert!(c.msg.is_empty());
    assert_eq!(c.current_op_batch_idx, 0);
    assert_eq!(c.current_op_byte_idx, 4);
}

#[test]
fn codes_take_a_byte_each() {
    let mut c = Channel::new(layout_for(3));
    c.encode_op(1);
    c.encode_op(0);
    c.encode_op(2);
    assert_eq!(c.msg, vec![1, 0, 2, 0]);
    assert_eq!(c.current_op_byte_idx, 3);
    let message = c.flush();
    assert_eq!(message, vec![1, 0, 2, 3]);
}

#[test]
fn a_full_word_starts_a_new_one() {
    let mut c = Channel::new(layout_for(20));
    for code in [5u8, 19, 7, 0, 11] {
        c.encode_op(code);
    }
    assert_eq!(c.msg, vec![5, 19, 7, 0, 11, 0, 0, 0]);
    assert_eq!(c.current_op_batch_idx, 4);
    assert_eq!(c.current_op_byte_idx, 1);
    let message = c.flush();
    assert_eq!(message, vec![5, 19, 7, 0, 11, 20, 0, 0]);
}

#[test]
fn flushed_calls_run_in_order() {
    let layout = layout_for(3);
    let mut c = Channel::new(layout_for(3));
    let calls = [1u8, 0, 2, 2, 1, 0, 0, 1, 2, 1];
    for &call in calls.iter() {
        c.encode_op(call);
    }
    let message = c.flush();
    assert_eq!(message.len(), 12);
    assert_eq!(run_in_js(&message, &layout), Some(calls.to_vec()));
}

#[test]
fn flushed_calls_of_many_functions_run_in_order() {
    let layout = layout_for(200);
    let mut c = Channel::new(layout_for(200));
    let calls: Vec<u8> = (0..13).map(|i| (i * 15) as u8).collect();
    for &call in calls.iter() {
        c.encode_op(call);
    }
    let message = c.flush();
    assert_eq!(message.len(), 16);
    assert_eq!(run_in_js(&message, &layout), Some(calls));
}

#[test]
fn flush_empties_the_channel() {
    let mut c = Channel::new(layout_for(3));
    c.encode_op(1);
    let _ = c.flush();
    assert!(c.msg.is_empty());
    assert_eq!(c.current_op_batch_idx, 0);
    assert_eq!(c.current_op_byte_idx, 4);
    let message = c.flush();
    assert_eq!(message, vec![3, 0, 0, 0]);
}

#[test]
fn flushing_nothing_ends_at_once() {
    let layout = layout_for(3);
    let mut c = Channel::new(layout_for(3));
    let message = c.flush();
    assert_eq!(run_in_js(&message, &layout), Some(Vec::new()));
}

#[test]
fn append_fills_the_word_with_no_ops() {
    let layout = layout_for(3);
    let mut first = Channel::new(layout_for(3));
    first.encode_op(1);
    let mut second = Channel::new(layout_for(3));
    second.encode_op(2);
    first.append(second);
    assert_eq!(first.msg, vec![1, 4, 4, 4, 2, 0, 0, 0]);
    assert_eq!(first.current_op_batch_idx, 4);
    assert_eq!(first.current_op_byte_idx, 1);
    let message = first.flush();
    assert_eq!(message, vec![1, 4, 4, 4, 2, 3, 0, 0]);
    assert_eq!(run_in_js(&message, &layout), Some(vec![1, 2]));
}

#[test]
fn append_to_an_empty_channel_adds_no_fill() {
    let layout = layout_for(20);
    let mut first = Channel::new(layout_for(20));
    let mut second = Channel::new(layout_for(20));
    second.encode_op(7);
    second.encode_op(8);
    first.append(second);
    assert_eq!(first.msg, vec![7, 8, 0, 0]);
    first.encode_op(9);
    let message = first.flush();
    assert_eq!(run_in_js(&message, &layout), Some(vec![7, 8, 9]));
}

#[test]
fn append_of_an_empty_channel_starts_a_new_word() {
    let layout = layout_for(20);
    let mut first = Channel::new(layout_for(20));
    first.encode_op(3);
    first.append(Channel::new(layout_for(20)));
    assert_eq!(first.msg, vec![3, 21, 21, 21]);
    first.encode_op(4);
    let message = first.flush();
    assert_eq!(message, vec![3, 21, 21, 21, 4, 20, 0, 0]);
    assert_eq!(run_in_js(&message, &layout), Some(vec![3, 4]));
}

#[test]
fn append_keeps_the_calls_for_every_function_count() {
    for n in [1usize, 14, 15, 16, 100, 254] {
        let layout = layout_for(n);
        let last = (n - 1) as u8;
        let mut first = Channel::new(layout_for(n));
        first.encode_op(last);
        let mut second = Channel::new(layout_for(n));
        second.encode_op(0);
        second.encode_op(last);
        first.append(second);
        let message = first.flush();
        assert_eq!(run_in_js(&message, &layout), Some(vec![last, 0, last]), "n = {}", n);
    }
}
