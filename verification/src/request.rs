//! Request bodies for the captioning and labeling services: the image bytes
//! go in base64, wrapped in the fixed JSON frames the services expect.
use vstd::prelude::*;

verus! {

/// What the standard, padded base64 encoding of a byte string is; the
/// result depends on the bytes alone.
pub uninterp spec fn base64_of(bytes: Seq<u8>) -> Seq<char>;

/// Relies on `base64::encode` (the standard alphabet, padded): the encoding
/// is a function of the input bytes, four characters per started three-byte
/// block.
#[verifier::external_body]
fn encode_base64(bytes: &Vec<u8>) -> (r: String)
    ensures
        r@ == base64_of(bytes@),
        r@.len() == 4 * ((bytes@.len() + 2) / 3),
{
    base64::encode(bytes.as_slice())
}

/// The label-detection request body: the encoded image and a request for at
/// most thirty labels.
pub fn label_request_body(img: &Vec<u8>) -> (r: String)
    ensures
        r@ == "{\"requests\":[{\"image\":{\"content\":\""@ + base64_of(img@)
            + "\"},\"features\":[{\"maxResults\":30,\"type\":\"LABEL_DETECTION\"}]}]}"@,
{
    let enc = encode_base64(img);
    let mut s = "{\"requests\":[{\"image\":{\"content\":\"".to_owned();
    s.append(enc.as_str());
    s.append("\"},\"features\":[{\"maxResults\":30,\"type\":\"LABEL_DETECTION\"}]}]}");
    s
}

/// The captioning request body: the encoded image, one sample, English.
pub fn caption_request_body(img: &Vec<u8>) -> (r: String)
    ensures
        r@ == "{\"instances\":[{\"image\":{\"bytesBase64Encoded\":\""@ + base64_of(img@)
            + "\"}}],\"parameters\":{\"sampleCount\":1,\"language\":\"en\"}}"@,
{
    let enc = encode_base64(img);
    let mut s = "{\"instances\":[{\"image\":{\"bytesBase64Encoded\":\"".to_owned();
    s.append(enc.as_str());
    s.append("\"}}],\"parameters\":{\"sampleCount\":1,\"language\":\"en\"}}");
    s
}

} // verus!
