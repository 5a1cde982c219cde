use vstd::prelude::*;
use crate::errors::AppError;
use crate::utils::text::{chars_eq, chars_of, chars_start_with, lowercase, string_from_chars, to_lowercase};

verus! {

/// The part of a file name after its last '.' (all of it when there is none).
pub open spec fn last_segment(name: Seq<char>) -> Seq<char>
    decreases name.len(),
{
    if name.len() == 0 {
        name
    } else if name.last() == '.' {
        Seq::empty()
    } else {
        last_segment(name.drop_last()).push(name.last())
    }
}

/// The extension of an upload: the lowercased last segment of its file
/// name, or "bin" when there is no file name.
pub open spec fn upload_extension(file_name: Option<Seq<char>>) -> Seq<char> {
    match file_name {
        Some(name) => lowercase(last_segment(name)),
        None => "bin"@,
    }
}

/// The supported audio extensions.
pub open spec fn is_audio_extension(ext: Seq<char>) -> bool {
    ||| ext == "mp3"@
    ||| ext == "wav"@
    ||| ext == "flac"@
    ||| ext == "ogg"@
    ||| ext == "m4a"@
    ||| ext == "aac"@
}

/// A lowercased audio MIME type: `audio/*`, `application/ogg` or
/// `video/mp4` (the container of M4A).
pub open spec fn is_audio_mime_lower(lower: Seq<char>) -> bool {
    ||| (6 <= lower.len() && lower.subrange(0, 6) == "audio/"@)
    ||| lower == "application/ogg"@
    ||| lower == "video/mp4"@
}

/// An audio MIME type, compared in lowercase.
pub open spec fn is_audio_mime(content_type: Option<Seq<char>>) -> bool {
    match content_type {
        Some(mime) => is_audio_mime_lower(lowercase(mime)),
        None => false,
    }
}

/// The message refusing an upload of extension `ext`.
pub open spec fn unsupported_type_message(ext: Seq<char>) -> Seq<char> {
    "Unsupported file type: "@ + ext
        + ". Please upload a supported audio file (MP3, WAV, FLAC, OGG, M4A AAC)."@
}

fn last_segment_of(name: &str) -> (segment: Vec<char>)
    ensures
        segment@ == last_segment(name@),
{
    let chars = chars_of(name);
    let n = chars.len();
    let mut start: usize = n;
    assert(chars@.subrange(0, n as int) =~= chars@);
    assert(chars@.subrange(n as int, n as int) =~= Seq::<char>::empty());
    while start > 0 && chars[start - 1] != '.'
        invariant
            chars@ == name@,
            n == chars@.len(),
            start <= n,
            last_segment(chars@) == last_segment(chars@.subrange(0, start as int)) + chars@.subrange(start as int, n as int),
        decreases start,
    {
        let ghost pre = chars@.subrange(0, start as int);
        assert(pre.drop_last() =~= chars@.subrange(0, start - 1));
        assert(chars@.subrange(start - 1, n as int) =~= seq![pre.last()] + chars@.subrange(start as int, n as int));
        start -= 1;
    }
    let ghost pre = chars@.subrange(0, start as int);
    assert(last_segment(pre) =~= Seq::empty());
    assert(chars@.subrange(0, n as int) =~= chars@);
    let mut segment: Vec<char> = Vec::new();
    let mut k = start;
    while k < n
        invariant
            chars@ == name@,
            n == chars@.len(),
            start <= k <= n,
            segment@ == chars@.subrange(start as int, k as int),
        decreases n - k,
    {
        segment.push(chars[k]);
        assert(segment@ =~= chars@.subrange(start as int, k + 1));
        k += 1;
    }
    segment
}

/// The verdict on an upload from its extension and its lowercased MIME type:
/// the extension when both are those of a supported audio format, else a
/// validation error naming the extension.
pub fn audio_type_verdict(ext: String, mime_lower: Option<String>) -> (result: Result<String, AppError>)
    ensures
        ({
            let ok = is_audio_extension(ext@) && match mime_lower {
                Some(m) => is_audio_mime_lower(m@),
                None => false,
            };
            &&& ok ==> result == Ok::<String, AppError>(ext)
            &&& !ok ==> (result matches Err(AppError::Validation(msg)) && msg@ == unsupported_type_message(ext@))
        }),
{
    let ext_chars = chars_of(ext.as_str());
    let allowed = ["mp3", "wav", "flac", "ogg", "m4a", "aac"];
    let mut is_valid_ext = false;
    let mut i: usize = 0;
    while i < 6
        invariant
            i <= 6,
            ext_chars@ == ext@,
            allowed@.len() == 6,
            allowed@[0]@ == "mp3"@,
            allowed@[1]@ == "wav"@,
            allowed@[2]@ == "flac"@,
            allowed@[3]@ == "ogg"@,
            allowed@[4]@ == "m4a"@,
            allowed@[5]@ == "aac"@,
            is_valid_ext == exists|j: int| 0 <= j < i && ext@ == allowed@[j]@,
        decreases 6 - i,
    {
        let candidate = chars_of(allowed[i]);
        if chars_eq(ext_chars.as_slice(), candidate.as_slice()) {
            is_valid_ext = true;
        }
        i += 1;
    }
    assert(is_valid_ext == is_audio_extension(ext@)) by {
        if is_audio_extension(ext@) {
            if ext@ == "mp3"@ { assert(ext@ == allowed@[0]@); }
            if ext@ == "wav"@ { assert(ext@ == allowed@[1]@); }
            if ext@ == "flac"@ { assert(ext@ == allowed@[2]@); }
            if ext@ == "ogg"@ { assert(ext@ == allowed@[3]@); }
            if ext@ == "m4a"@ { assert(ext@ == allowed@[4]@); }
            if ext@ == "aac"@ { assert(ext@ == allowed@[5]@); }
        }
    }
    let is_valid_mime = match &mime_lower {
        Some(lower) => {
            let lower_chars = chars_of(lower.as_str());
            let audio = chars_of("audio/");
            let ogg = chars_of("application/ogg");
            let mp4 = chars_of("video/mp4");
            proof {
                reveal_strlit("audio/");
            }
            chars_start_with(lower_chars.as_slice(), audio.as_slice()) || chars_eq(lower_chars.as_slice(), ogg.as_slice())
                || chars_eq(lower_chars.as_slice(), mp4.as_slice())
        },
        None => false,
    };
    if !is_valid_ext || !is_valid_mime {
        let mut message = String::from_str("Unsupported file type: ");
        message.append(ext.as_str());
        message.append(". Please upload a supported audio file (MP3, WAV, FLAC, OGG, M4A AAC).");
        return Err(AppError::Validation(message));
    }
    Ok(ext)
}

/// Validates that the file extension and MIME type are those of a supported
/// audio format (MP3, WAV, FLAC, OGG, M4A, AAC) and returns the extension.
pub fn validate_audio_file(file_name: Option<&String>, content_type: Option<&String>) -> (result: Result<
    String,
    AppError,
>)
    ensures
        ({
            let ext = upload_extension(
                match file_name {
                    Some(f) => Some(f@),
                    None => None,
                },
            );
            let ok = is_audio_extension(ext) && is_audio_mime(
                match content_type {
                    Some(c) => Some(c@),
                    None => None,
                },
            );
            &&& ok ==> (result matches Ok(e) && e@ == ext)
            &&& !ok ==> (result matches Err(AppError::Validation(msg)) && msg@ == unsupported_type_message(ext))
        }),
{
    let ext: String = match file_name {
        Some(f) => {
            let segment = last_segment_of(f.as_str());
            let segment_str = string_from_chars(segment.as_slice());
            to_lowercase(segment_str.as_str())
        },
        None => String::from_str("bin"),
    };
    let mime_lower = match content_type {
        Some(mime) => Some(to_lowercase(mime.as_str())),
        None => None,
    };
    audio_type_verdict(ext, mime_lower)
}

} // verus!
