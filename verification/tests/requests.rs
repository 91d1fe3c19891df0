use catten_services::{netdev, raft, s3, tcpip, uart};

#[test]
fn gateway_requests_are_told_by_their_numbers() {
    let codes = s3::Opcodes {
        get_begin: 1,
        get_read: 2,
        get_close: 3,
        put_begin: 4,
        put_write: 5,
        put_finish: 6,
        put_abort: 7,
        head: 8,
        delete: 9,
        status: 10,
    };
    let told: Vec<s3::Operation> = (1..12).map(|code| s3::operation_of(&codes, code)).collect();
    assert_eq!(
        told,
        vec![
            s3::Operation::GetBegin,
            s3::Operation::GetRead,
            s3::Operation::GetClose,
            s3::Operation::PutBegin,
            s3::Operation::PutWrite,
            s3::Operation::PutFinish,
            s3::Operation::PutAbort,
            s3::Operation::Head,
            s3::Operation::Delete,
            s3::Operation::Status,
            s3::Operation::Unknown,
        ]
    );
}

#[test]
fn consensus_requests_are_told_by_their_numbers() {
    let codes = raft::Opcodes {
        vote: 1,
        append: 2,
        snapshot: 3,
        frame: 4,
        status: 5,
        cluster_status: 6,
        add_server: 7,
        remove_server: 8,
    };
    let told: Vec<raft::Operation> = (1..10).map(|code| raft::operation_of(&codes, code)).collect();
    assert_eq!(
        told,
        vec![
            raft::Operation::Vote,
            raft::Operation::Append,
            raft::Operation::Snapshot,
            raft::Operation::Frame,
            raft::Operation::Status,
            raft::Operation::ClusterStatus,
            raft::Operation::AddServer,
            raft::Operation::RemoveServer,
            raft::Operation::Unknown,
        ]
    );
}

#[test]
fn socket_requests_are_told_by_their_numbers() {
    let codes = tcpip::Opcodes {
        socket: 1,
        connect: 2,
        bind: 3,
        listen: 4,
        accept: 5,
        send: 6,
        receive: 7,
        close: 8,
        frame: 9,
        status: 10,
    };
    let told: Vec<tcpip::Operation> =
        (1..12).map(|code| tcpip::operation_of(&codes, code)).collect();
    assert_eq!(
        told,
        vec![
            tcpip::Operation::Open,
            tcpip::Operation::Connect,
            tcpip::Operation::Bind,
            tcpip::Operation::Listen,
            tcpip::Operation::Accept,
            tcpip::Operation::Send,
            tcpip::Operation::Receive,
            tcpip::Operation::Close,
            tcpip::Operation::Frame,
            tcpip::Operation::Status,
            tcpip::Operation::Unknown,
        ]
    );
}

#[test]
fn device_requests_are_told_by_their_numbers() {
    let console =
        uart::Opcodes { write: 1, status: 2, read_deferred: 3, shutdown: 4, crash: 5 };
    let told: Vec<uart::Request> =
        (1..7).map(|code| uart::request_of(&console, code, 0x41)).collect();
    assert_eq!(
        told,
        vec![
            uart::Request::Write { argument: 0x41 },
            uart::Request::Status,
            uart::Request::ReadDeferred,
            uart::Request::Shutdown,
            uart::Request::Crash,
            uart::Request::Unknown,
        ]
    );
    let network = netdev::Opcodes { status: 1, send: 2, receive: 3, shutdown: 4 };
    let told: Vec<netdev::Request> =
        (1..6).map(|code| netdev::request_of(&network, code, 0x1000)).collect();
    assert_eq!(
        told,
        vec![
            netdev::Request::Status,
            netdev::Request::Send { frame: 0x1000 },
            netdev::Request::Receive,
            netdev::Request::Shutdown,
            netdev::Request::Unknown,
        ]
    );
}
