use catten_services::kafka::Error;
use catten_services::kafka_service::{
    decode_request, record_bytes, record_timestamp, status_word, ClientIdentity, Fetched, Finish,
    FinishAction, Grants, Opcodes, ProducerIdentity, Request, RoutedRecord, Service,
    TransactionWrite,
};

const ALICE: ClientIdentity = ClientIdentity { domain: 1, generation: 1 };
const BOB: ClientIdentity = ClientIdentity { domain: 2, generation: 1 };
const OLD_ALICE: ClientIdentity = ClientIdentity { domain: 1, generation: 0 };
const PLAIN: ProducerIdentity = ProducerIdentity { id: 10, epoch: 0 };
const TRANSACTIONAL: ProducerIdentity = ProducerIdentity { id: 11, epoch: 0 };
const FRESH: ProducerIdentity = ProducerIdentity { id: 11, epoch: 1 };
const LIMIT: usize = 1_000;

fn service() -> Service {
    let all = Grants { produce: true, consume: true, transaction: true };
    Service::new(all, PLAIN, TRANSACTIONAL)
}

fn denied() -> Service {
    let none = Grants { produce: false, consume: false, transaction: false };
    Service::new(none, PLAIN, TRANSACTIONAL)
}

fn records(offsets: &[i64]) -> Vec<Fetched> {
    offsets.iter().map(|offset| Fetched { offset: *offset, encoded_len: 100 }).collect()
}

fn open(service: &mut Service, offset: i64) -> u32 {
    service.open_consumer(ALICE, Ok(Some(offset)), Ok(0)).unwrap()
}

fn poll(service: &mut Service, consumer: u32, offsets: &[i64]) -> Result<Option<(u32, usize)>, Error> {
    service.poll_offset(ALICE, consumer)?;
    service.poll_consumer(ALICE, consumer, &records(offsets), LIMIT)
}

#[test]
fn consumers_start_where_the_group_left_off() {
    let mut service = service();
    assert_eq!(service.may_open_consumer(), Ok(()));
    let at = service.open_consumer(ALICE, Ok(Some(7)), Ok(2)).unwrap();
    assert_eq!(service.poll_offset(ALICE, at), Ok(7));
    let first = service.open_consumer(ALICE, Ok(None), Ok(2)).unwrap();
    assert_eq!(service.poll_offset(ALICE, first), Ok(2));
    assert_eq!((at, first), (1, 2));
    assert_eq!(service.open_consumer(ALICE, Err(Error::Broker), Ok(2)), Err(Error::Broker));
    assert_eq!(service.open_consumer(ALICE, Ok(Some(1)), Err(Error::Timeout)), Err(Error::Timeout));
    for _ in 2..8 {
        open(&mut service, 0);
    }
    assert_eq!(service.open_consumer(ALICE, Ok(None), Ok(0)), Err(Error::Busy));
    assert_eq!(service.may_open_consumer(), Err(Error::Busy));
    assert_eq!(denied().open_consumer(ALICE, Ok(None), Ok(0)), Err(Error::Denied));
    assert_eq!(denied().may_open_consumer(), Err(Error::Denied));
}

#[test]
fn a_consumer_has_one_delivery_at_a_time() {
    let mut service = service();
    let consumer = open(&mut service, 5);
    let (delivery, index) = poll(&mut service, consumer, &[3, 4, 6, 7]).unwrap().unwrap();
    assert_eq!(index, 2);
    assert_eq!(service.poll_offset(ALICE, consumer), Err(Error::Busy));
    assert_eq!(service.counters().backpressure, 1);
    assert_eq!(service.counters().consumed, 1);
    assert_eq!(service.commit_offset(ALICE, delivery), Ok(7));
    assert_eq!(service.commit_delivery(ALICE, delivery, Err(Error::Timeout)), Err(Error::Timeout));
    assert_eq!(service.commit_delivery(ALICE, delivery, Ok(())), Ok(()));
    assert_eq!(service.poll_offset(ALICE, consumer), Ok(7));
    assert_eq!(service.counters().commits, 1);
}

#[test]
fn a_released_record_is_delivered_again() {
    let mut service = service();
    let consumer = open(&mut service, 5);
    let (delivery, _) = poll(&mut service, consumer, &[9]).unwrap().unwrap();
    assert_eq!(service.release_delivery(ALICE, delivery), Ok(()));
    assert_eq!(service.poll_offset(ALICE, consumer), Ok(9));
    assert_eq!(service.release_delivery(ALICE, delivery), Err(Error::Invalid));
}

#[test]
fn nothing_or_too_much_is_not_delivered() {
    let mut service = service();
    let consumer = open(&mut service, 5);
    assert_eq!(poll(&mut service, consumer, &[]), Ok(None));
    assert_eq!(poll(&mut service, consumer, &[1, 4]), Ok(None));
    let large = [Fetched { offset: 5, encoded_len: LIMIT + 1 }];
    assert_eq!(
        service.poll_consumer(ALICE, consumer, &large, LIMIT),
        Err(Error::TooLarge)
    );
    assert_eq!(poll(&mut service, consumer, &[i64::MAX]), Err(Error::Protocol));
    assert_eq!(service.poll_offset(ALICE, consumer), Ok(5));
}

#[test]
fn strangers_change_nothing() {
    let mut service = service();
    let consumer = open(&mut service, 5);
    let (delivery, _) = poll(&mut service, consumer, &[5]).unwrap().unwrap();
    let transaction = service.begin_transaction(ALICE).unwrap();
    for stranger in [BOB, OLD_ALICE] {
        assert_eq!(service.poll_offset(stranger, consumer), Err(Error::Invalid));
        assert_eq!(service.release_delivery(stranger, delivery), Err(Error::Invalid));
        assert_eq!(service.commit_offset(stranger, delivery), Err(Error::Invalid));
        assert_eq!(service.commit_delivery(stranger, delivery, Ok(())), Err(Error::Invalid));
        assert_eq!(service.close_consumer(stranger, consumer), Err(Error::Invalid));
        assert_eq!(
            service.include_delivery(stranger, transaction, delivery),
            Err(Error::Invalid)
        );
        assert_eq!(
            service.transaction_produce(stranger, transaction, 0),
            Err(Error::Invalid)
        );
        assert_eq!(service.start_finish(stranger, transaction, true), Err(Error::Invalid));
    }
    assert_eq!(service.release_delivery(ALICE, delivery), Ok(()));
}

#[test]
fn closing_a_consumer_forgets_its_delivery() {
    let mut service = service();
    let consumer = open(&mut service, 5);
    let (delivery, _) = poll(&mut service, consumer, &[5]).unwrap().unwrap();
    assert_eq!(service.close_consumer(ALICE, consumer), Ok(()));
    assert_eq!(service.close_consumer(ALICE, consumer), Err(Error::Invalid));
    assert_eq!(service.commit_offset(ALICE, delivery), Err(Error::Invalid));
}

#[test]
fn records_are_numbered_in_turn() {
    let mut service = service();
    assert_eq!(service.produce_sequence(3), Ok(0));
    assert_eq!(service.produced(3, Ok(100)), Ok(100));
    assert_eq!(service.produced(3, Err(Error::Timeout)), Err(Error::Timeout));
    assert_eq!(service.produced(4, Ok(200)), Ok(200));
    assert_eq!(service.produce_sequence(3), Ok(1));
    assert_eq!(service.produce_sequence(4), Ok(1));
    assert_eq!(service.produce_sequence(5), Ok(0));
    assert_eq!(service.counters().produced, 2);
    assert_eq!(service.producers(), (PLAIN, TRANSACTIONAL));
    assert_eq!(denied().produce_sequence(3), Err(Error::Denied));
}

#[test]
fn one_transaction_is_open_at_a_time() {
    let mut service = service();
    let transaction = service.begin_transaction(ALICE).unwrap();
    assert_eq!(service.begin_transaction(BOB), Err(Error::Busy));
    assert_eq!(denied().begin_transaction(ALICE), Err(Error::Denied));
    assert_eq!(denied().transaction_produce(ALICE, transaction, 0), Err(Error::Denied));
    assert_eq!(
        service.transaction_produce(ALICE, transaction, 2),
        Ok(TransactionWrite::AddPartition)
    );
    assert_eq!(service.partition_added(2, Ok(())), Ok(0));
    assert_eq!(service.transaction_produced(2, Ok(50)), Ok(50));
    assert_eq!(
        service.transaction_produce(ALICE, transaction, 2),
        Ok(TransactionWrite::Produce { sequence: 1 })
    );
}

fn drive(
    service: &mut Service,
    transaction: u32,
    commit: bool,
    answers: &[Option<Error>],
    reset: Result<ProducerIdentity, Error>,
) -> (Vec<FinishAction>, Result<(), Error>) {
    let mut finish: Finish = service.start_finish(ALICE, transaction, commit).unwrap();
    let mut asked = Vec::new();
    let mut answers = answers.iter();
    loop {
        let action = finish.action();
        match action {
            FinishAction::Nothing => break,
            FinishAction::InitProducer => finish.reset(reset),
            _ => finish.answered(*answers.next().unwrap()),
        }
        asked.push(action);
    }
    (asked, service.finish_transaction(&finish))
}

fn with_delivery() -> (Service, u32, u32) {
    let mut service = service();
    let consumer = open(&mut service, 5);
    let (delivery, _) = poll(&mut service, consumer, &[5]).unwrap().unwrap();
    let transaction = service.begin_transaction(ALICE).unwrap();
    assert_eq!(service.include_delivery(ALICE, transaction, delivery), Ok(()));
    assert_eq!(service.include_delivery(ALICE, transaction, delivery), Err(Error::Busy));
    assert_eq!(service.poll_offset(ALICE, consumer), Err(Error::Busy));
    assert_eq!(service.close_consumer(ALICE, consumer), Err(Error::Busy));
    (service, consumer, transaction)
}

#[test]
fn a_committed_transaction_commits_its_delivery() {
    let (mut service, consumer, transaction) = with_delivery();
    let (asked, result) = drive(&mut service, transaction, true, &[None, None], Ok(FRESH));
    assert_eq!(
        asked,
        vec![FinishAction::AddOffset { next_offset: 6 }, FinishAction::End { commit: true }]
    );
    assert_eq!(result, Ok(()));
    assert_eq!(service.poll_offset(ALICE, consumer), Ok(6));
    assert_eq!(service.counters().commits, 1);
    assert_eq!(service.producers(), (PLAIN, TRANSACTIONAL));
    assert_eq!(service.start_finish(ALICE, transaction, true), Err(Error::Invalid));
}

#[test]
fn an_aborted_transaction_gives_its_delivery_back() {
    let (mut service, consumer, transaction) = with_delivery();
    let (asked, result) = drive(&mut service, transaction, false, &[None], Ok(FRESH));
    assert_eq!(asked, vec![FinishAction::End { commit: false }]);
    assert_eq!(result, Ok(()));
    assert_eq!(service.poll_offset(ALICE, consumer), Ok(5));
    assert_eq!(service.counters().aborts, 1);
}

#[test]
fn a_failed_commit_is_aborted_and_the_producer_replaced() {
    let (mut service, consumer, transaction) = with_delivery();
    let answers = [Some(Error::Timeout), None];
    let (asked, result) = drive(&mut service, transaction, true, &answers, Ok(FRESH));
    assert_eq!(
        asked,
        vec![
            FinishAction::AddOffset { next_offset: 6 },
            FinishAction::End { commit: false },
            FinishAction::InitProducer,
        ]
    );
    assert_eq!(result, Err(Error::Timeout));
    assert_eq!(service.poll_offset(ALICE, consumer), Ok(5));
    assert_eq!(service.producers(), (PLAIN, FRESH));
    let (mut service, _, transaction) = with_delivery();
    let answers = [None, Some(Error::Broker), Some(Error::Transport)];
    let (asked, result) = drive(&mut service, transaction, true, &answers, Err(Error::Fenced));
    assert_eq!(asked.len(), 4);
    assert_eq!(result, Err(Error::Fenced));
    assert_eq!(service.producers(), (PLAIN, TRANSACTIONAL));
}

#[test]
fn an_untouched_transaction_ends_without_the_brokers() {
    let mut service = service();
    let transaction = service.begin_transaction(ALICE).unwrap();
    let (asked, result) = drive(&mut service, transaction, true, &[], Ok(FRESH));
    assert!(asked.is_empty());
    assert_eq!(result, Ok(()));
    assert_eq!(service.counters().commits, 1);
}

#[test]
fn a_lost_acknowledgement_replaces_the_producer() {
    let mut service = service();
    let transaction = service.begin_transaction(ALICE).unwrap();
    assert_eq!(service.partition_added(1, Ok(())), Ok(0));
    assert_eq!(service.transaction_produced(1, Ok(9)), Ok(9));
    assert_eq!(service.partition_added(2, Err(Error::Timeout)), Err(Error::Timeout));
    let (asked, result) = drive(&mut service, transaction, true, &[None], Ok(FRESH));
    assert_eq!(asked, vec![FinishAction::End { commit: true }, FinishAction::InitProducer]);
    assert_eq!(result, Ok(()));
    assert_eq!(service.producers(), (PLAIN, FRESH));
    let transaction = service.begin_transaction(ALICE).unwrap();
    assert_eq!(service.transaction_produce(ALICE, transaction, 1), Ok(TransactionWrite::AddPartition));
    assert_eq!(service.partition_added(1, Ok(())), Ok(0));
    assert_eq!(service.transaction_produced(1, Err(Error::Fenced)), Err(Error::Fenced));
}

#[test]
fn requests_are_understood() {
    let codes = Opcodes {
        produce: 1,
        produce_to: 2,
        consumer_open: 3,
        consumer_poll: 4,
        delivery_commit: 5,
        delivery_release: 6,
        consumer_close: 7,
        transaction_begin: 8,
        transaction_produce: 9,
        transaction_produce_to: 10,
        transaction_include: 11,
        transaction_commit: 12,
        transaction_abort: 13,
        status: 14,
    };
    let routed = RoutedRecord { resource_id: 0, route: 3, len: 40 };
    let other = RoutedRecord { resource_id: 6, ..routed };
    let big = 1u64 << 32;
    let decode = |opcode, arg, routed| decode_request(&codes, opcode, arg, routed);
    assert_eq!(decode(1, 40, routed), Request::Produce { route: 0, len: 40 });
    assert_eq!(decode(2, 0, routed), Request::Produce { route: 3, len: 40 });
    assert_eq!(decode(2, 0, other), Request::Invalid);
    assert_eq!(decode(3, 0, routed), Request::OpenConsumer);
    assert_eq!(decode(4, 9, routed), Request::PollConsumer { consumer: 9 });
    assert_eq!(decode(4, big, routed), Request::Invalid);
    assert_eq!(decode(5, 9, routed), Request::CommitDelivery { delivery: 9 });
    assert_eq!(decode(6, 9, routed), Request::ReleaseDelivery { delivery: 9 });
    assert_eq!(decode(7, 9, routed), Request::CloseConsumer { consumer: 9 });
    assert_eq!(decode(7, big, routed), Request::Invalid);
    assert_eq!(decode(8, 0, routed), Request::BeginTransaction);
    assert_eq!(
        decode(9, 5 | (40 << 32), routed),
        Request::TransactionProduce { transaction: 5, route: 0, len: 40 }
    );
    assert_eq!(
        decode(10, 0, other),
        Request::TransactionProduce { transaction: 6, route: 3, len: 40 }
    );
    assert_eq!(
        decode(11, 5 | (8 << 32), routed),
        Request::IncludeDelivery { transaction: 5, delivery: 8 }
    );
    assert_eq!(
        decode(12, 5, routed),
        Request::FinishTransaction { transaction: 5, commit: true }
    );
    assert_eq!(
        decode(13, 5, routed),
        Request::FinishTransaction { transaction: 5, commit: false }
    );
    assert_eq!(decode(13, big, routed), Request::Invalid);
    assert_eq!(decode(14, 0, routed), Request::Status);
    assert_eq!(decode(15, 0, routed), Request::Unknown);
}

#[test]
fn records_and_status_are_read() {
    assert_eq!(record_bytes(Some(&[1, 2, 3]), 2), Ok(&[1u8, 2][..]));
    assert_eq!(record_bytes(Some(&[1, 2, 3]), 4), Err(Error::Invalid));
    assert_eq!(record_bytes(None, 0), Err(Error::Invalid));
    assert_eq!(record_timestamp(5, None), Ok(5));
    assert_eq!(record_timestamp(-1, Some(9)), Ok(9));
    assert_eq!(record_timestamp(-1, None), Err(Error::Timeout));
    assert_eq!(status_word(0x1_0007, 3), 7 | (3 << 16));
    assert_eq!(status_word(7, -1), 7 | (0xffff << 16));
    let mut service = service();
    service.account();
    assert_eq!(service.counters().requests, 1);
}
