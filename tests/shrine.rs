use oosikle::shrine::{enqueue_outcome, open_shrine, reply_outcome, worker_step, ShrineError, ShrineMessage, WorkerStep};

#[test]
fn miko_roundtrips_without_error() -> Result<(), ShrineError> {
    let test_message = "This is a test";
    let (miko, inbox) = open_shrine::<String>();
    let mut kami = test_message.to_string();
    let reply = miko.send_messenger_get_channel(|t: &String| Ok(t.clone()))?;
    assert_eq!(inbox.serve_one(&mut kami), WorkerStep::Ran(Ok(())));
    let res = reply_outcome(reply.recv().ok())?;
    assert!(res == test_message.to_string());
    Ok(())
}

#[test]
fn stop_sentinel_ends_the_worker_after_earlier_work() {
    let (miko, inbox) = open_shrine::<u32>();
    let mut kami = 0u32;
    miko.send_raw_messenger(|n: &mut u32| {
        *n += 1;
        Ok(())
    })
    .unwrap();
    miko.send_stop().unwrap();
    miko.send_raw_messenger(|n: &mut u32| {
        *n += 100;
        Ok(())
    })
    .unwrap();
    assert_eq!(inbox.serve_one(&mut kami), WorkerStep::Ran(Ok(())));
    assert_eq!(inbox.serve_one(&mut kami), WorkerStep::Stop);
    assert_eq!(kami, 1);
}

#[test]
fn calls_after_the_worker_is_gone_are_unavailable() {
    let (miko, inbox) = open_shrine::<u32>();
    drop(inbox);
    assert_eq!(miko.send_stop(), Err(ShrineError::ActorUnavailable));
    assert_eq!(miko.send_raw_messenger(|_n: &mut u32| Ok(())), Err(ShrineError::ActorUnavailable));
    assert_eq!(miko.send_messenger(|n: &u32| Ok(*n)), Err(ShrineError::ActorUnavailable));
    assert_eq!(miko.send_mutating_messenger(|n: &mut u32| Ok(*n)), Err(ShrineError::ActorUnavailable));
    assert!(miko.send_messenger_get_channel(|n: &u32| Ok(*n)).is_err());
}

#[test]
fn a_dropped_work_item_leaves_its_caller_unavailable() {
    let (miko, inbox) = open_shrine::<u32>();
    let reply = miko.send_mutating_messenger_get_channel(|n: &mut u32| Ok(*n)).unwrap();
    drop(inbox);
    assert_eq!(reply_outcome(reply.recv().ok()), Err(ShrineError::ActorUnavailable));
}

#[test]
fn replies_come_back_in_issue_order() {
    let (miko, inbox) = open_shrine::<Vec<u32>>();
    let mut kami: Vec<u32> = Vec::new();
    let mut replies = Vec::new();
    for i in 0..50u32 {
        replies.push(
            miko.send_mutating_messenger_get_channel(move |v: &mut Vec<u32>| {
                v.push(i);
                Ok(v.len())
            })
            .unwrap(),
        );
    }
    for _ in 0..50 {
        assert_eq!(inbox.serve_one(&mut kami), WorkerStep::Ran(Ok(())));
    }
    for (i, rx) in replies.into_iter().enumerate() {
        assert_eq!(rx.recv().unwrap(), Ok(i + 1));
    }
    assert_eq!(kami, (0..50).collect::<Vec<u32>>());
}

#[test]
fn clones_of_a_handle_reach_the_same_resource() {
    let (miko, inbox) = open_shrine::<u64>();
    let other = miko.clone();
    let mut kami = 0u64;
    miko.send_raw_messenger(|n: &mut u64| {
        *n += 1;
        Ok(())
    })
    .unwrap();
    other
        .send_raw_messenger(|n: &mut u64| {
            *n *= 10;
            Ok(())
        })
        .unwrap();
    inbox.serve_one(&mut kami);
    inbox.serve_one(&mut kami);
    assert_eq!(kami, 10);
}

#[test]
fn a_failing_closure_reaches_only_its_caller() {
    let (miko, inbox) = open_shrine::<i32>();
    let mut kami = 7i32;
    let bad = miko.send_messenger_get_channel(|_n: &i32| -> Result<i32, String> { Err("bad".to_string()) }).unwrap();
    let good = miko.send_messenger_get_channel(|n: &i32| Ok(*n + 1)).unwrap();
    assert_eq!(inbox.serve_one(&mut kami), WorkerStep::Ran(Err("bad".to_string())));
    assert_eq!(inbox.serve_one(&mut kami), WorkerStep::Ran(Ok(())));
    assert_eq!(reply_outcome(bad.recv().ok()), Err(ShrineError::WorkItemFailed("bad".to_string())));
    assert_eq!(reply_outcome(good.recv().ok()), Ok(8));
}

#[test]
fn outcomes_of_queueing_and_replies() {
    assert_eq!(enqueue_outcome(true), Ok(()));
    assert_eq!(enqueue_outcome(false), Err(ShrineError::ActorUnavailable));
    assert_eq!(reply_outcome::<u8>(None), Err(ShrineError::ActorUnavailable));
    assert_eq!(reply_outcome::<u8>(Some(Ok(3))), Ok(3));
    assert_eq!(reply_outcome::<u8>(Some(Err("e".to_string()))), Err(ShrineError::WorkItemFailed("e".to_string())));
}

#[test]
fn worker_step_stops_only_at_the_sentinel_or_a_closed_queue() {
    let mut k = 1u8;
    assert_eq!(worker_step::<u8>(None, &mut k), WorkerStep::Stop);
    assert_eq!(worker_step::<u8>(Some(ShrineMessage::Stop), &mut k), WorkerStep::Stop);
    let (miko, inbox) = open_shrine::<u8>();
    miko.send_raw_messenger(|n: &mut u8| -> Result<(), String> {
        *n = 5;
        Err("logged".to_string())
    })
    .unwrap();
    assert_eq!(inbox.serve_one(&mut k), WorkerStep::Ran(Err("logged".to_string())));
    assert_eq!(k, 5);
    drop(miko);
    assert_eq!(inbox.serve_one(&mut k), WorkerStep::Stop);
}

#[test]
fn reply_channel_carries_the_result() {
    let (miko, inbox) = open_shrine::<u16>();
    let mut kami = 2u16;
    let rx = miko
        .send_mutating_messenger_get_channel(|n: &mut u16| {
            *n *= 10;
            Ok(*n)
        })
        .unwrap();
    let rx2 = miko.send_messenger_get_channel(|n: &u16| Ok(*n + 1)).unwrap();
    inbox.serve_one(&mut kami);
    inbox.serve_one(&mut kami);
    assert_eq!(rx.recv().unwrap(), Ok(20));
    assert_eq!(rx2.recv().unwrap(), Ok(21));
}
