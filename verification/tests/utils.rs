use auris::errors::AppError;
use auris::api::websocket::{subscription_request, Subscription};
use auris::utils::cors::{parse_cors_origins, split_origins, url_facts_verdict, CorsRejection, UrlFacts};
use auris::utils::file_hash::generate_file_hash;
use auris::utils::file_validation::{audio_type_verdict, validate_audio_file};

#[test]
fn test_parse_cors_origins() {
    // Test basic parsing
    let result = parse_cors_origins("http://localhost:5173,http://localhost:3000");
    assert!(result.is_ok());
    let origins = result.unwrap();
    assert_eq!(origins.len(), 2);
    assert_eq!(origins[0], "http://localhost:5173");
    assert_eq!(origins[1], "http://localhost:3000");

    // Test trimming
    let result = parse_cors_origins(" http://localhost:5173 , http://localhost:3000 ");
    assert!(result.is_ok());
    let origins = result.unwrap();
    assert_eq!(origins.len(), 2);
    assert_eq!(origins[0], "http://localhost:5173");

    // Test filtering empty strings
    let result = parse_cors_origins("http://localhost:5173,,http://localhost:3000");
    assert!(result.is_ok());
    let origins = result.unwrap();
    assert_eq!(origins.len(), 2);

    // Test single origin
    let result = parse_cors_origins("http://localhost:5173");
    assert!(result.is_ok());
    let origins = result.unwrap();
    assert_eq!(origins.len(), 1);
    assert_eq!(origins[0], "http://localhost:5173");
}

#[test]
fn test_parse_cors_origins_invalid() {
    // Test invalid origin with newlines (which are not allowed in HeaderValue)
    let result = parse_cors_origins("http://localhost:5173,http://\ninvalid.com");
    assert!(result.is_err());

    // Test missing scheme
    let result = parse_cors_origins("localhost:5173");
    assert!(result.is_err());

    // Test invalid scheme
    let result = parse_cors_origins("ftp://example.com");
    assert!(result.is_err());

    // Test missing host
    let result = parse_cors_origins("http://");
    assert!(result.is_err());

    // Test path component
    let result = parse_cors_origins("http://example.com/path");
    assert!(result.is_err());

    // Test query component
    let result = parse_cors_origins("http://example.com?param=value");
    assert!(result.is_err());

    // Test fragment component
    let result = parse_cors_origins("http://example.com#fragment");
    assert!(result.is_err());
}

#[test]
fn cors_rejection_reasons() {
    let reason = |raw: &str| parse_cors_origins(raw).unwrap_err().reason;
    assert!(matches!(reason("ftp://example.com"), CorsRejection::SchemeNotHttp));
    assert!(matches!(reason("http://example.com/path"), CorsRejection::HasPath));
    assert!(matches!(reason("http://example.com?param=value"), CorsRejection::HasQuery));
    assert!(matches!(reason("http://example.com#fragment"), CorsRejection::HasFragment));
    assert!(matches!(reason("not a url"), CorsRejection::InvalidUrl(_)));
    let err = parse_cors_origins("https://ok.example, ftp://bad.example").unwrap_err();
    assert_eq!(err.origin, "ftp://bad.example");
    assert!(parse_cors_origins("https://example.com/").is_ok());
    assert_eq!(parse_cors_origins(" , ,").unwrap(), Vec::<String>::new());
}

#[test]
fn split_origins_trims_and_drops_empty() {
    assert_eq!(split_origins(" a ,b,, \tc\n"), vec!["a".to_string(), "b".to_string(), "c".to_string()]);
    assert_eq!(split_origins(""), Vec::<String>::new());
}

#[test]
fn validate_audio_file_accepts_audio() {
    let name = "Song.Final.MP3".to_string();
    let mime = "Audio/Mpeg".to_string();
    assert_eq!(validate_audio_file(Some(&name), Some(&mime)), Ok("mp3".to_string()));
    let name = "clip.m4a".to_string();
    let mime = "video/mp4".to_string();
    assert_eq!(validate_audio_file(Some(&name), Some(&mime)), Ok("m4a".to_string()));
    let name = "a.ogg".to_string();
    let mime = "application/ogg".to_string();
    assert_eq!(validate_audio_file(Some(&name), Some(&mime)), Ok("ogg".to_string()));
}

#[test]
fn validate_audio_file_refuses_other_types() {
    let name = "notes.txt".to_string();
    let mime = "audio/mpeg".to_string();
    assert_eq!(
        validate_audio_file(Some(&name), Some(&mime)),
        Err(AppError::Validation(
            "Unsupported file type: txt. Please upload a supported audio file (MP3, WAV, FLAC, OGG, M4A AAC).".to_string()
        ))
    );
    let name = "song.wav".to_string();
    let mime = "text/plain".to_string();
    assert!(matches!(validate_audio_file(Some(&name), Some(&mime)), Err(AppError::Validation(_))));
    let name = "song.wav".to_string();
    assert!(validate_audio_file(Some(&name), None).is_err());
    let mime = "audio/wav".to_string();
    assert_eq!(
        validate_audio_file(None, Some(&mime)),
        Err(AppError::Validation(
            "Unsupported file type: bin. Please upload a supported audio file (MP3, WAV, FLAC, OGG, M4A AAC).".to_string()
        ))
    );
    // no dot: the whole name is the extension
    let name = "flac".to_string();
    assert_eq!(validate_audio_file(Some(&name), Some(&mime)), Ok("flac".to_string()));
}

#[test]
fn file_hash_is_lowercase_sha256_hex() {
    assert_eq!(
        generate_file_hash(b""),
        "e3b0c44298fc1c149afbf4c8996fb92427ae41e4649b934ca495991b7852b855"
    );
    assert_eq!(
        generate_file_hash(b"abc"),
        "ba7816bf8f01cfea414140de5dae2223b00361a396177a9cb410ff61f20015ad"
    );
}

#[test]
fn webm_uploads_are_refused() {
    let name = "voice.webm".to_string();
    let mime = "audio/webm".to_string();
    assert_eq!(
        validate_audio_file(Some(&name), Some(&mime)),
        Err(AppError::Validation(
            "Unsupported file type: webm. Please upload a supported audio file (MP3, WAV, FLAC, OGG, M4A AAC).".to_string()
        ))
    );
}

#[test]
fn audio_type_verdict_on_lowercased_values() {
    assert_eq!(audio_type_verdict("aac".to_string(), Some("audio/aac".to_string())), Ok("aac".to_string()));
    assert_eq!(audio_type_verdict("wav".to_string(), Some("video/mp4".to_string())), Ok("wav".to_string()));
    // the verdict compares as given: an uppercase MIME type is not lowercased here
    assert!(audio_type_verdict("wav".to_string(), Some("AUDIO/WAV".to_string())).is_err());
    assert!(audio_type_verdict("wav".to_string(), None).is_err());
    assert!(audio_type_verdict("mp4".to_string(), Some("audio/mp4".to_string())).is_err());
}

fn facts(scheme: &str, host: bool, path: &str, query: bool, fragment: bool) -> UrlFacts {
    UrlFacts { scheme: scheme.to_string(), has_host: host, path: path.to_string(), has_query: query, has_fragment: fragment }
}

#[test]
fn url_facts_verdict_reports_first_failure() {
    assert!(url_facts_verdict(&facts("https", true, "/", false, false)).is_none());
    assert!(url_facts_verdict(&facts("http", true, "", false, false)).is_none());
    assert!(matches!(url_facts_verdict(&facts("ftp", false, "/x", true, true)), Some(CorsRejection::SchemeNotHttp)));
    assert!(matches!(url_facts_verdict(&facts("http", false, "/x", true, true)), Some(CorsRejection::MissingHost)));
    assert!(matches!(url_facts_verdict(&facts("http", true, "/x", true, true)), Some(CorsRejection::HasPath)));
    assert!(matches!(url_facts_verdict(&facts("http", true, "/", true, true)), Some(CorsRejection::HasQuery)));
    assert!(matches!(url_facts_verdict(&facts("http", true, "/", false, true)), Some(CorsRejection::HasFragment)));
}

#[test]
fn subscription_from_first_message() {
    assert_eq!(subscription_request(None), Subscription::NotText);
    assert_eq!(
        subscription_request(Some("  67e55044-10b1-426f-9247-bb680e5fe0c8\n")),
        Subscription::Track(0x67e55044_10b1_426f_9247_bb680e5fe0c8)
    );
    assert_eq!(subscription_request(Some("not-a-uuid")), Subscription::InvalidId);
    assert_eq!(subscription_request(Some("")), Subscription::InvalidId);
}

#[test]
fn whitespace_is_trimmed_from_origins() {
    assert_eq!(split_origins("\u{3000}http://a.test\t,\u{a0} , http://b.test\u{2028}"), vec!["http://a.test", "http://b.test"]);
}
