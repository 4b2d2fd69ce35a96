use tagtools::sub::{
    complete_push, plan_frame, subscribe, try_begin_push, unsubscribe, SubscriberMap, PUSH_CREDIT,
};

#[test]
fn union_masks_follow_subscribers() {
    let mut m = SubscriberMap::new();
    let a = subscribe(&mut m, 0x0001, vec![(0x0001, None)]);
    let b = subscribe(&mut m, 0x8001, vec![(0x8001, None), (0x0003, Some(2))]);
    let c = subscribe(&mut m, 0x0002, vec![(0x0003, Some(2))]);
    assert_eq!((a, b, c), (0, 1, 2));
    assert_eq!(m.cur_tagmask, 0x8003);
    let mut pats = m.cur_patmasks.clone();
    pats.sort();
    assert_eq!(pats, vec![(0x0001, None), (0x0003, Some(2)), (0x8001, None)]);

    // Dropping a subscriber narrows the union to what remains.
    unsubscribe(&mut m, b);
    assert_eq!(m.cur_tagmask, 0x0003);
    let mut pats = m.cur_patmasks.clone();
    pats.sort();
    assert_eq!(pats, vec![(0x0001, None), (0x0003, Some(2))]);

    unsubscribe(&mut m, a);
    unsubscribe(&mut m, c);
    assert_eq!(m.cur_tagmask, 0);
    assert!(m.cur_patmasks.is_empty());

    // Ids keep increasing after removals.
    let d = subscribe(&mut m, 0x0010, vec![]);
    assert_eq!(d, 3);
}

#[test]
fn flow_control_skips_saturated_subscribers() {
    let mut m = SubscriberMap::new();
    let slow = subscribe(&mut m, 0x0001, vec![(0x0001, None)]);
    let fast = subscribe(&mut m, 0x0002, vec![(0x0002, None)]);
    // A subscriber that never completes its pushes is admitted for exactly
    // PUSH_CREDIT frames, then skipped.
    for _ in 0..PUSH_CREDIT {
        assert!(try_begin_push(&mut m, slow));
    }
    assert!(!try_begin_push(&mut m, slow));
    assert!(!try_begin_push(&mut m, slow));
    // Another subscriber is unaffected.
    assert!(try_begin_push(&mut m, fast));
    complete_push(&mut m, fast);
    // Once a completion arrives, one more push is admitted.
    complete_push(&mut m, slow);
    assert!(try_begin_push(&mut m, slow));
    assert!(!try_begin_push(&mut m, slow));
    // Unknown subscribers are never admitted.
    assert!(!try_begin_push(&mut m, 77));
}

#[test]
fn failed_push_drops_the_subscriber() {
    let mut m = SubscriberMap::new();
    let a = subscribe(&mut m, 0x0001, vec![(0x0001, None)]);
    let b = subscribe(&mut m, 0x0002, vec![(0x0002, None)]);
    assert!(try_begin_push(&mut m, a));
    // The push to `a` errors out: the registry drops it and the unions
    // shrink before the next frame.
    unsubscribe(&mut m, a);
    assert_eq!(m.cur_tagmask, 0x0002);
    assert_eq!(m.cur_patmasks, vec![(0x0002, None)]);
    assert!(!try_begin_push(&mut m, a));
    assert!(try_begin_push(&mut m, b));
}

#[test]
fn frames_fan_out_to_unsaturated_subscribers() {
    let mut m = SubscriberMap::new();
    let slow = subscribe(&mut m, 0x0001, vec![(0x0001, None)]);
    let fast = subscribe(&mut m, 0x8001, vec![(0x8001, None), (0x0003, Some(2))]);
    // Saturate the slow subscriber.
    for _ in 0..PUSH_CREDIT {
        assert!(try_begin_push(&mut m, slow));
    }
    let counts: Vec<((u16, Option<u32>), u64)> =
        vec![((0x0001, None), 11), ((0x8001, None), 3), ((0x0003, Some(2)), 7)];
    let plan = plan_frame(&mut m, &counts);
    // Only the fast subscriber gets this frame, with its own patterns'
    // counts and windows.
    assert_eq!(plan.len(), 1);
    assert_eq!(plan[0].0, fast);
    assert_eq!(plan[0].1, 0x8001);
    assert_eq!(plan[0].2, vec![(0x8001, 3, 1), (0x0003, 7, 2)]);
    // The fast subscriber spent a credit; four more frames and it is
    // saturated too.
    for _ in 0..PUSH_CREDIT - 1 {
        assert_eq!(plan_frame(&mut m, &counts).len(), 1);
    }
    assert_eq!(plan_frame(&mut m, &counts).len(), 0);
    // Completions free both subscribers again.
    complete_push(&mut m, slow);
    complete_push(&mut m, fast);
    let plan = plan_frame(&mut m, &counts);
    assert_eq!(plan.len(), 2);
    assert_eq!(plan[0].0, slow);
    assert_eq!(plan[0].2, vec![(0x0001, 11, 1)]);
    assert_eq!(plan[1].0, fast);
}
