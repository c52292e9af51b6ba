use coordkit::gfs::data::read_frame;
use coordkit::gfs::data::write_frame;
use coordkit::gfs::data::Addr;
use coordkit::gfs::data::Arrival;
use coordkit::gfs::data::DataRequest;
use coordkit::gfs::data::DataResponse;
use coordkit::gfs::data::FrameTooLarge;
use coordkit::gfs::data::MAX_FRAME_LEN;
use coordkit::gfs::repl::kill_at;
use coordkit::gfs::repl::parse_data_port;
use coordkit::gfs::repl::parse_line;
use coordkit::gfs::repl::port_setting;
use coordkit::gfs::repl::show_chunks;
use coordkit::gfs::repl::show_status;
use coordkit::gfs::repl::Cmd;
use coordkit::gfs::repl::Spawned;
use coordkit::gfs::repl::DEFAULT_CHUNK_PORT;
use coordkit::gfs::repl::DEFAULT_CLIENT_PORT;
use coordkit::gfs::types::CHUNK_SIZE;
use coordkit::wire::Field;

fn requests() -> Vec<DataRequest> {
    vec![
        DataRequest::Write { chunk_id: 300, forward_to: None, payload: vec![1, 2, 3] },
        DataRequest::Write {
            chunk_id: 1,
            forward_to: Some(Addr::V4 { ip: [10, 0, 0, 1], port: 9000 }),
            payload: vec![],
        },
        DataRequest::Write {
            chunk_id: u64::MAX,
            forward_to: Some(Addr::V6 {
                ip: [0, 1, 2, 3, 4, 5, 6, 7, 8, 9, 10, 11, 12, 13, 14, 15],
                port: 65535,
            }),
            payload: vec![0; 1000],
        },
        DataRequest::Read { chunk_id: 7 },
        DataRequest::ReadRange { chunk_id: 7, offset: 100, len: 50 },
    ]
}

fn responses() -> Vec<DataResponse> {
    vec![
        DataResponse::Written,
        DataResponse::Data(vec![9; 200]),
        DataResponse::NotFound,
        DataResponse::Error("na\u{ef}ve".to_string()),
    ]
}

#[test]
fn messages_survive_their_frame() {
    for req in requests() {
        let mut bytes = write_frame(&req).unwrap();
        let n = bytes.len();
        bytes.extend_from_slice(b"more");
        match read_frame::<DataRequest>(&bytes) {
            Arrival::Message(got, used) => {
                assert_eq!(got, req);
                assert_eq!(used, n);
            }
            _ => panic!("no message"),
        }
        assert_eq!(req.duplicate(), req);
    }
    for resp in responses() {
        let bytes = write_frame(&resp).unwrap();
        assert!(matches!(
            read_frame::<DataResponse>(&bytes),
            Arrival::Message(got, used) if got == resp && used == bytes.len()
        ));
        assert_eq!(resp.duplicate(), resp);
    }
}

#[test]
fn partial_frames_are_waited_for() {
    let bytes = write_frame(&requests()[2]).unwrap();
    for cut in 0..bytes.len() {
        assert!(matches!(read_frame::<DataRequest>(&bytes[..cut]), Arrival::Incomplete));
    }
}

#[test]
fn bytes_of_messages() {
    assert_eq!(write_frame(&DataResponse::Written).unwrap(), vec![1, 0, 0, 0, 0]);
    assert_eq!(
        write_frame(&DataResponse::Data(vec![5, 6])).unwrap(),
        vec![4, 0, 0, 0, 1, 2, 5, 6]
    );
    assert_eq!(write_frame(&DataResponse::NotFound).unwrap(), vec![1, 0, 0, 0, 2]);
    assert_eq!(
        write_frame(&DataResponse::Error("no".to_string())).unwrap(),
        vec![4, 0, 0, 0, 3, 2, b'n', b'o']
    );
    assert_eq!(DataRequest::Read { chunk_id: 128 }.encode(), vec![1, 0x80, 1]);
    assert_eq!(
        DataRequest::ReadRange { chunk_id: 1, offset: 2, len: 3 }.encode(),
        vec![2, 1, 2, 3]
    );
    let write = DataRequest::Write {
        chunk_id: 1,
        forward_to: Some(Addr::V4 { ip: [127, 0, 0, 1], port: 300 }),
        payload: vec![8],
    };
    // Tag, id, a present address of the first kind, its octets, its port, payload.
    assert_eq!(write.encode(), vec![0, 1, 1, 0, 127, 0, 0, 1, 0xac, 2, 1, 8]);
}

#[test]
fn frames_that_cannot_be_read() {
    let mut long = ((MAX_FRAME_LEN + 1) as u32).to_le_bytes().to_vec();
    long.push(0);
    assert!(matches!(
        read_frame::<DataResponse>(&long),
        Arrival::TooLong(n) if n as usize == MAX_FRAME_LEN + 1
    ));
    assert!(matches!(read_frame::<DataResponse>(&[1, 0, 0, 0, 4]), Arrival::Malformed));
    assert!(matches!(read_frame::<DataResponse>(&[0, 0, 0, 0]), Arrival::Malformed));
    assert!(matches!(read_frame::<DataRequest>(&[2, 0, 0, 0, 0, 1]), Arrival::Malformed));
    assert!(matches!(read_frame::<DataRequest>(&[4, 0, 0, 0, 0, 1, 2, 0]), Arrival::Malformed));
    assert!(matches!(read_frame::<DataRequest>(&[2, 0, 0, 0, 3, 1]), Arrival::Malformed));
    assert_eq!(FrameTooLarge.message(), "frame too large");
}

#[test]
fn shell_lines() {
    let ok = |line: &str| parse_line(line).unwrap();
    let err = |line: &str| parse_line(line).unwrap_err();
    assert_eq!(ok("   "), Cmd::Empty);
    assert_eq!(ok("master"), Cmd::Master { client_port: 0, chunk_port: 0 });
    assert_eq!(
        ok("master --chunk-port 2 --client-port +1"),
        Cmd::Master { client_port: 1, chunk_port: 2 }
    );
    assert_eq!(err("master --client-port"), "master: --client-port requires <port>");
    assert_eq!(err("master --chunk-port"), "master: --chunk-port requires <port>");
    assert_eq!(err("master --chunk-port 65536"), "master: invalid port `65536`");
    assert_eq!(err("master --client-port x"), "master: invalid port `x`");
    assert_eq!(err("master now"), "master: unexpected `now`");
    assert_eq!(ok("chunk --data-port 65535"), Cmd::Chunk { data_port: 65535 });
    assert_eq!(err("chunk --data-port"), "chunk: --data-port requires <port>");
    assert_eq!(err("chunk --data-port -1"), "chunk: invalid port `-1`");
    assert_eq!(err("chunk x"), "chunk: unexpected `x`");
    assert_eq!(ok("chunks"), Cmd::Chunks);
    assert_eq!(err("chunks x y"), "chunks: unexpected argument `x`");
    assert_eq!(ok("status"), Cmd::Status);
    assert_eq!(err("status x"), "status: unexpected argument `x`");
    assert_eq!(ok("kill 3"), Cmd::Kill { index: 3 });
    assert_eq!(err("kill"), "usage: kill <chunk-index>");
    assert_eq!(err("kill x"), "kill: invalid index `x`");
    assert_eq!(
        ok("put a b"),
        Cmd::Put { local: "a".into(), remote: "b".into(), chunk_size: CHUNK_SIZE }
    );
    assert_eq!(
        ok("put a --chunk-size 7 b"),
        Cmd::Put { local: "a".into(), remote: "b".into(), chunk_size: 7 }
    );
    assert_eq!(err("put a"), "usage: put <local> <remote> [--chunk-size <bytes>]");
    assert_eq!(err("put a b --chunk-size"), "put: --chunk-size requires <bytes>");
    assert_eq!(err("put a b --chunk-size z"), "put: invalid chunk size `z`");
    assert_eq!(err("put a b --chunk-size 0"), "put: chunk size must be > 0");
    assert_eq!(err("put a b --fast"), "put: unexpected flag `--fast`");
    assert_eq!(ok("get r l"), Cmd::Get { remote: "r".into(), local: "l".into() });
    assert_eq!(err("get r"), "usage: get <remote> <local>");
    assert_eq!(ok("delete r"), Cmd::Delete { remote: "r".into() });
    assert_eq!(err("delete"), "usage: delete <remote>");
    for help in ["help", "?"] {
        assert_eq!(ok(help), Cmd::Help);
    }
    for quit in ["quit", "exit", "q"] {
        assert_eq!(ok(quit), Cmd::Quit);
    }
    assert_eq!(err("frob 1"), "unknown command `frob`; type `help`");
}

#[test]
fn server_arguments() {
    let flags = |words: &[&str]| -> Option<u16> {
        parse_data_port(&words.iter().map(|w| w.to_string()).collect())
    };
    assert_eq!(flags(&[]), Some(0));
    assert_eq!(flags(&["--data-port", "12"]), Some(12));
    assert_eq!(flags(&["--data-port", "12", "--data-port", "13"]), Some(13));
    assert_eq!(flags(&["--data-port"]), None);
    assert_eq!(flags(&["--data-port", "x"]), None);
    assert_eq!(flags(&["--other", "1"]), None);
    assert_eq!(port_setting(None, DEFAULT_CLIENT_PORT), 50000);
    assert_eq!(port_setting(Some("nope"), DEFAULT_CHUNK_PORT), 50001);
    assert_eq!(port_setting(Some("81"), DEFAULT_CHUNK_PORT), 81);
}

#[test]
fn messages_are_written_as_postcard_writes_them() {
    let plain = |bytes: Result<Vec<u8>, postcard::Error>| bytes.unwrap();
    let rs = requests();
    let none: Option<(u32, [u8; 4], u16)> = None;
    assert_eq!(
        rs[0].encode(),
        plain(postcard::to_stdvec(&(0u32, 300u64, none, vec![1u8, 2, 3])))
    );
    let v4 = Some((0u32, [10u8, 0, 0, 1], 9000u16));
    assert_eq!(
        rs[1].encode(),
        plain(postcard::to_stdvec(&(0u32, 1u64, v4, Vec::<u8>::new())))
    );
    let ip: [u8; 16] = [0, 1, 2, 3, 4, 5, 6, 7, 8, 9, 10, 11, 12, 13, 14, 15];
    let v6 = Some((1u32, ip, 65535u16));
    assert_eq!(
        rs[2].encode(),
        plain(postcard::to_stdvec(&(0u32, u64::MAX, v6, vec![0u8; 1000])))
    );
    assert_eq!(rs[3].encode(), plain(postcard::to_stdvec(&(1u32, 7u64))));
    assert_eq!(rs[4].encode(), plain(postcard::to_stdvec(&(2u32, 7u64, 100u64, 50u64))));
    let answers = responses();
    assert_eq!(answers[1].encode(), plain(postcard::to_stdvec(&(1u32, vec![9u8; 200]))));
    assert_eq!(answers[3].encode(), plain(postcard::to_stdvec(&(3u32, "na\u{ef}ve"))));
}

#[test]
fn cluster_is_shown() {
    assert_eq!(show_chunks(&vec![]), vec!["(no chunk servers)"]);
    let all = vec![
        Spawned { data_addr: "[::1]:1".into(), running: true },
        Spawned { data_addr: "[::1]:2".into(), running: false },
    ];
    assert_eq!(
        show_chunks(&all),
        vec!["chunk[0] data=[::1]:1", "chunk[1] data=[::1]:2 (killed)"]
    );
    assert_eq!(kill_at(&all, 0).unwrap(), "chunk[0] killed (data=[::1]:1)");
    assert_eq!(kill_at(&all, 1).unwrap_err(), "kill: chunk[1] is already killed");
    assert_eq!(kill_at(&all, 2).unwrap_err(), "kill: no chunk server at index 2");
    assert_eq!(show_status(None, 0), "master: not running; chunk servers: 0");
    assert_eq!(
        show_status(Some(("[::1]:5", "[::1]:6")), 12),
        "master: client=[::1]:5 chunk=[::1]:6; chunk servers: 12"
    );
}
