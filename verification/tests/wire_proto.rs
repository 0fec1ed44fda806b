use simplekv::store::KvStore;
use simplekv::text::{string_to_chars, chars_to_string};
use simplekv::wire::{
    Request,
    Response,
    encode_request,
    encode_response,
    parse_request,
    parse_response,
    handle_request,
    read_get_response,
    read_unit_response,
    get_output,
};

#[test]
fn request_texts_are_exact() {
    let get = Request::Get { key: "k".to_owned() };
    assert_eq!(chars_to_string(&encode_request(&get)), "{\"Get\":{\"key\":\"k\"}}");
    let put = Request::Put { key: "k".to_owned(), value: "v".to_owned() };
    assert_eq!(
        chars_to_string(&encode_request(&put)),
        "{\"Set\":{\"key\":\"k\",\"value\":\"v\"}}"
    );
    let rm = Request::Remove { key: "k".to_owned() };
    assert_eq!(chars_to_string(&encode_request(&rm)), "{\"Remove\":{\"key\":\"k\"}}");
}

#[test]
fn requests_round_trip() {
    for req in [
        Request::Get { key: "a b".to_owned() },
        Request::Put { key: "k\"q".to_owned(), value: "v\\w".to_owned() },
        Request::Remove { key: "gone".to_owned() },
    ] {
        let text = encode_request(&req);
        let (parsed, end) = parse_request(&text, 0).unwrap();
        assert_eq!(end, text.len());
        let roundtripped = encode_request(&parsed);
        assert_eq!(chars_to_string(&roundtripped), chars_to_string(&text));
    }
}

#[test]
fn response_texts_are_exact() {
    let ok_null = Response::Value { value: None };
    assert_eq!(chars_to_string(&encode_response(&ok_null)), "{\"Ok\":null}");
    let ok_v = Response::Value { value: Some("v1".to_owned()) };
    assert_eq!(chars_to_string(&encode_response(&ok_v)), "{\"Ok\":\"v1\"}");
    let err = Response::Error { message: "Key not found".to_owned() };
    assert_eq!(chars_to_string(&encode_response(&err)), "{\"Err\":\"Key not found\"}");
}

#[test]
fn responses_round_trip() {
    for resp in [
        Response::Value { value: None },
        Response::Value { value: Some("x".to_owned()) },
        Response::Error { message: "boom".to_owned() },
    ] {
        let text = encode_response(&resp);
        let (parsed, end) = parse_response(&text, 0).unwrap();
        assert_eq!(end, text.len());
        assert_eq!(
            chars_to_string(&encode_response(&parsed)),
            chars_to_string(&text)
        );
    }
}

#[test]
fn partial_response_does_not_parse() {
    let text = string_to_chars("{\"Ok\":\"v1");
    assert!(parse_response(&text, 0).is_none());
}

#[test]
fn server_dispatch_follows_the_protocol() {
    let mut store = KvStore::open(Vec::new()).unwrap();
    let (resp, eff) = handle_request(&mut store, Request::Get { key: "k".to_owned() });
    assert_eq!(chars_to_string(&encode_response(&resp)), "{\"Ok\":null}");
    assert!(eff.is_none());
    let (resp, eff) = handle_request(
        &mut store,
        Request::Put { key: "k".to_owned(), value: "v".to_owned() },
    );
    assert_eq!(chars_to_string(&encode_response(&resp)), "{\"Ok\":null}");
    assert!(eff.is_some());
    let (resp, _) = handle_request(&mut store, Request::Get { key: "k".to_owned() });
    assert_eq!(chars_to_string(&encode_response(&resp)), "{\"Ok\":\"v\"}");
    let (resp, eff) = handle_request(&mut store, Request::Remove { key: "gone".to_owned() });
    assert_eq!(
        chars_to_string(&encode_response(&resp)),
        "{\"Err\":\"Key not found\"}"
    );
    assert!(eff.is_none());
    let (resp, eff) = handle_request(&mut store, Request::Remove { key: "k".to_owned() });
    assert_eq!(chars_to_string(&encode_response(&resp)), "{\"Ok\":null}");
    assert!(eff.is_some());
}

#[test]
fn client_reads_responses() {
    let v = read_get_response(Response::Value { value: Some("v2".to_owned()) });
    assert_eq!(v.unwrap(), Some("v2".to_owned()));
    let missing = read_get_response(Response::Value { value: None });
    assert_eq!(missing.unwrap(), None);
    let err = read_get_response(Response::Error { message: "boom".to_owned() });
    assert!(err.is_err());
    assert!(read_unit_response(Response::Value { value: None }).is_ok());
    assert!(read_unit_response(Response::Error { message: "x".to_owned() }).is_err());
}

#[test]
fn get_output_prints_value_or_key_not_found() {
    assert_eq!(get_output(&Some("value1".to_owned())), "value1\n");
    assert_eq!(get_output(&None), "Key not found\n");
}
