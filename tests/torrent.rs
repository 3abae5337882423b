use crypto::digest::Digest;
use crypto::sha1::Sha1;
use torrent_tracker::bencode::{decode, encode, Value};
use torrent_tracker::torrent::{Field, File, Info, MetainfoError, Torrent};

const INFO: &[u8] = b"d6:lengthi10e4:name1:a12:piece lengthi16384e6:pieces20:aaaaaaaaaaaaaaaaaaaae";

fn metainfo() -> Vec<u8> {
    let mut b = b"d8:announce11:udp://x:8014:info".to_vec();
    b.extend_from_slice(INFO);
    b.extend_from_slice(b"e");
    b
}

fn sha1(b: &[u8]) -> [u8; 20] {
    let mut h = Sha1::new();
    h.input(b);
    let mut out = [0u8; 20];
    h.result(&mut out);
    out
}

#[test]
fn info_hash_is_sha1_of_info_bytes() {
    let t = Torrent::parse(&metainfo()).unwrap();
    assert_eq!(t.info_hash, sha1(INFO));
    assert_ne!(t.info_hash.to_vec(), INFO[..20].to_vec());
    let again = Torrent::parse(&metainfo()).unwrap();
    assert_eq!(t.info_hash, again.info_hash);
}

#[test]
fn single_file_torrent_fields() {
    let t = Torrent::parse(&metainfo()).unwrap();
    assert_eq!(t.announce, "udp://x:801");
    assert_eq!(t.info.name, "a");
    assert_eq!(t.info.piece_length, 16384);
    assert_eq!(t.info.pieces, vec![b'a'; 20]);
    assert_eq!(t.info.files.len(), 1);
    assert_eq!(t.info.files[0].path, "a");
    assert_eq!(t.info.files[0].length, 10);
    assert_eq!(t.get_torrent_total_size(), 10);
    assert_eq!(t.get_announce_url(), "x:801");
}

#[test]
fn multi_file_torrent_fields() {
    let input = b"d8:announce4:udp:4:infod5:filesld6:lengthi100e4:pathl3:dir5:a.txteed6:lengthi250e4:pathl5:b.bineee4:name3:top12:piece lengthi1e6:pieces0:ee";
    let t = Torrent::parse(input).unwrap();
    assert_eq!(t.info.files.len(), 2);
    assert_eq!(t.info.files[0].path, "dir/a.txt");
    assert_eq!(t.info.files[1].path, "b.bin");
    assert_eq!(t.get_torrent_total_size(), 350);
    assert_eq!(t.get_announce_url(), "udp:");
}

#[test]
fn total_size_of_three_files() {
    let info = Info {
        files: vec![
            File { path: "a".to_string(), length: 100 },
            File { path: "b".to_string(), length: 250 },
            File { path: "c".to_string(), length: 0 },
        ],
        piece_length: 16384,
        pieces: vec![],
        name: "t".to_string(),
    };
    assert_eq!(info.total_size(), 350);
}

#[test]
fn info_hash_keeps_unknown_keys() {
    let info = b"d6:lengthi1e4:name1:a12:piece lengthi1e6:pieces0:7:privatei1ee";
    let mut b = b"d8:announce3:u:/4:info".to_vec();
    b.extend_from_slice(info);
    b.push(b'e');
    let t = Torrent::parse(&b).unwrap();
    assert_eq!(t.info_hash, sha1(info));
}

#[test]
fn missing_and_mistyped_fields() {
    assert_eq!(
        Torrent::parse(b"d4:infodee").unwrap_err(),
        MetainfoError::MissingField(Field::Announce)
    );
    assert_eq!(
        Torrent::parse(b"d8:announcei1e4:infodee").unwrap_err(),
        MetainfoError::TypeMismatch(Field::Announce)
    );
    assert_eq!(
        Torrent::parse(b"d8:announce1:ue").unwrap_err(),
        MetainfoError::MissingField(Field::Info)
    );
    assert_eq!(
        Torrent::parse(b"d8:announce1:u4:infoi1ee").unwrap_err(),
        MetainfoError::TypeMismatch(Field::Info)
    );
    assert_eq!(
        Torrent::parse(b"d8:announce1:u4:infodee").unwrap_err(),
        MetainfoError::MissingField(Field::Name)
    );
    assert_eq!(Torrent::parse(b"le").unwrap_err(), MetainfoError::TypeMismatch(Field::Root));
    assert!(matches!(Torrent::parse(b"4:abc"), Err(MetainfoError::Decode(_))));
}

#[test]
fn invalid_utf8_and_values() {
    assert_eq!(
        Torrent::parse(b"d8:announce1:\xff4:infodee").unwrap_err(),
        MetainfoError::InvalidUtf8(Field::Announce)
    );
    assert_eq!(
        Torrent::parse(b"d8:announce1:u4:infod6:lengthi1e4:name1:a12:piece lengthi0e6:pieces0:ee").unwrap_err(),
        MetainfoError::InvalidValue(Field::PieceLength)
    );
    assert_eq!(
        Torrent::parse(b"d8:announce1:u4:infod6:lengthi1e4:name1:a12:piece lengthi1e6:pieces3:abcee").unwrap_err(),
        MetainfoError::InvalidValue(Field::Pieces)
    );
}

#[test]
fn decoded_metainfo_reencodes_exactly() {
    let b = metainfo();
    let v = decode(&b).unwrap();
    assert_eq!(encode(&v), b);
    assert!(matches!(v, Value::Dict(_)));
}

fn with_announce(url: &str) -> Torrent {
    let mut b = format!("d8:announce{}:{}4:info", url.len(), url).into_bytes();
    b.extend_from_slice(INFO);
    b.push(b'e');
    Torrent::parse(&b).unwrap()
}

#[test]
fn announce_host_and_port() {
    let t = with_announce("udp://tracker.example:6969/announce");
    assert_eq!(t.announce_host_port().unwrap(), ("tracker.example".to_string(), 6969));
    assert_eq!(t.get_announce_url(), "tracker.example:6969/announce");
    let t = with_announce("udp://x:80");
    assert_eq!(t.announce_host_port().unwrap(), ("x".to_string(), 80));
}

#[test]
fn announce_scheme_and_port_errors() {
    let t = with_announce("http://x:80/announce");
    assert_eq!(t.announce_host_port().unwrap_err(), MetainfoError::UnsupportedScheme);
    assert_eq!(t.get_announce_url(), "http://x:80/announce");
    for bad in ["udp://x", "udp://:80", "udp://x:", "udp://x:/a", "udp://x:65536", "udp://x:8a"] {
        assert_eq!(
            with_announce(bad).announce_host_port().unwrap_err(),
            MetainfoError::InvalidValue(Field::Announce),
            "{}",
            bad
        );
    }
    assert_eq!(with_announce("udp://x:65535").announce_host_port().unwrap().1, 65535);
}
