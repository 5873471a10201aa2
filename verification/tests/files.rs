use ogg::writing::{PacketWriteEndInfo, PacketWriter};
use protofish2::cert_chain::{cert_chain_from_pem, check_cert_chain, CertChainError};
use protofish2::opus_stream::{frames_to_send, ogg_audio_frames};
use std::io::Cursor;

fn self_signed() -> (String, Vec<u8>) {
    let cert = rcgen::generate_simple_self_signed(vec!["localhost".to_string()]).unwrap();
    (cert.cert.pem(), cert.cert.der().to_vec())
}

#[test]
fn cert_chain_is_read_in_order() {
    let (pem1, der1) = self_signed();
    let (pem2, der2) = self_signed();
    let text = format!("{pem1}{pem2}");
    assert_eq!(cert_chain_from_pem(text.as_bytes()), Ok(vec![der1, der2]));
}

#[test]
fn cert_chain_skips_keys() {
    let cert = rcgen::generate_simple_self_signed(vec!["localhost".to_string()]).unwrap();
    let text = format!("{}{}", cert.signing_key.serialize_pem(), cert.cert.pem());
    assert_eq!(
        cert_chain_from_pem(text.as_bytes()),
        Ok(vec![cert.cert.der().to_vec()])
    );
}

#[test]
fn cert_chain_without_certificates_is_refused() {
    assert_eq!(cert_chain_from_pem(b""), Err(CertChainError::NoCertificates));
    let cert = rcgen::generate_simple_self_signed(vec!["localhost".to_string()]).unwrap();
    let key_only = cert.signing_key.serialize_pem();
    assert_eq!(
        cert_chain_from_pem(key_only.as_bytes()),
        Err(CertChainError::NoCertificates)
    );
}

#[test]
fn malformed_cert_chain_is_a_parse_error() {
    let text = "-----BEGIN CERTIFICATE-----\n!!!!\n-----END CERTIFICATE-----\n";
    assert_eq!(cert_chain_from_pem(text.as_bytes()), Err(CertChainError::Parse));
}

#[test]
fn cert_chain_decision() {
    assert_eq!(check_cert_chain(None), Err(CertChainError::Parse));
    assert_eq!(check_cert_chain(Some(vec![])), Err(CertChainError::NoCertificates));
    assert_eq!(check_cert_chain(Some(vec![vec![1], vec![2]])), Ok(vec![vec![1], vec![2]]));
}

fn ogg_file(packets: &[&[u8]]) -> Vec<u8> {
    let mut writer = PacketWriter::new(Cursor::new(Vec::new()));
    for (i, p) in packets.iter().enumerate() {
        let end = if i + 1 == packets.len() {
            PacketWriteEndInfo::EndStream
        } else {
            PacketWriteEndInfo::EndPage
        };
        writer.write_packet(p.to_vec(), 7, end, i as u64).unwrap();
    }
    writer.into_inner().into_inner()
}

#[test]
fn ogg_file_yields_audio_frames() {
    let file = ogg_file(&[b"OpusHead\x01\x02", b"OpusTags\x00", b"frame-a", b"frame-b", b"frame-c"]);
    let frames = ogg_audio_frames(&file).unwrap();
    assert!(!frames.read_error);
    assert_eq!(
        frames.frames,
        vec![
            (0, b"frame-a".to_vec()),
            (20, b"frame-b".to_vec()),
            (40, b"frame-c".to_vec())
        ]
    );
}

#[test]
fn truncated_ogg_file_reports_error() {
    let mut file = ogg_file(&[b"OpusHead", b"frame-a", b"frame-b"]);
    file.truncate(file.len() - 3);
    let frames = ogg_audio_frames(&file).unwrap();
    assert!(frames.read_error);
    assert_eq!(frames.frames, vec![(0, b"frame-a".to_vec())]);
}

#[test]
fn frames_skip_headers_wherever_they_are() {
    let packets = vec![b"x".to_vec(), b"OpusTags".to_vec(), b"y".to_vec(), b"OpusHea".to_vec()];
    assert_eq!(
        frames_to_send(&packets),
        vec![(0, b"x".to_vec()), (20, b"y".to_vec()), (40, b"OpusHea".to_vec())]
    );
}
