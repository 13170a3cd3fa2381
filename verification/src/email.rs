use crate::recipients::Recipient;
use crate::replace::replace_variables;
use crate::replace::spec_missing;
use crate::replace::spec_rendered;
use crate::replace::ReplaceError;
use vstd::prelude::*;

verus! {

/// One line of the send report: the address written to and whether the
/// message was confirmed delivered.
#[derive(Debug)]
pub struct Output {
    pub email: String,
    pub sent: bool,
}

/// Renders the body and the subject for one recipient, against its own
/// variables: the pair is (body, subject), the body rendered first. Succeeds
/// with both texts exactly when both render; otherwise fails with the missing
/// names of the body if any, else of the subject.
pub fn process_recipient(recipient: &Recipient, subject: &str, content: &str) -> (r: Result<
    (String, String),
    ReplaceError,
>)
    ensures
        r is Ok <==> (spec_missing(content@, recipient@.variables).len() == 0 && spec_missing(
            subject@,
            recipient@.variables,
        ).len() == 0),
        match r {
            Ok(texts) => texts.0@ == spec_rendered(content@, recipient@.variables) && texts.1@
                == spec_rendered(subject@, recipient@.variables),
            Err(e) => e@ == if spec_missing(content@, recipient@.variables).len() > 0 {
                spec_missing(content@, recipient@.variables)
            } else {
                spec_missing(subject@, recipient@.variables)
            },
        },
{
    let body = match replace_variables(content, &recipient.variables) {
        Ok(b) => b,
        Err(e) => {
            return Err(e);
        },
    };
    let personalized_subject = match replace_variables(subject, &recipient.variables) {
        Ok(s) => s,
        Err(e) => {
            return Err(e);
        },
    };
    Ok((body, personalized_subject))
}

} // verus!
