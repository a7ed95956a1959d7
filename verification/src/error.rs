//! The failures that a request can end in, and how a message of the
//! service is told from data.

use vstd::prelude::*;

verus! {

/// Main error/failure enum
#[derive(Debug)]
#[non_exhaustive]
pub enum Error {
    /// The service answered with an informational message instead of data.
    AlphaVantageInformation(String),
    /// The service answered with an error message instead of data.
    AlphaVantageErrorMessage(String),
    /// The service answered with a note, commonly on its rate limit,
    /// instead of data.
    AlphaVantageNote(String),
    /// The service sent no message and no data that could be read.
    AlphaVantageInvalidData,
    /// More of the latest records were asked for than there are; holds the
    /// number of records that there are.
    DesiredNumberOfDataNotPresent(usize),
    /// The service sent no message, and the meta data or the series is
    /// missing.
    EmptyResponse,
    /// No answer could be had from the server.
    GetRequestFailed,
    /// A field of the answer could not be decoded.
    DecodeJsonToStruct,
    /// The URL of the request could not be built.
    CreateUrl,
}

/// The message that stands in place of data, if there is one: the
/// information before the error message, and the error message before the
/// note.
pub open spec fn sentinel(
    information: Option<String>,
    error_message: Option<String>,
    note: Option<String>,
) -> Option<Error> {
    if information is Some {
        Some(Error::AlphaVantageInformation(information->0))
    } else if error_message is Some {
        Some(Error::AlphaVantageErrorMessage(error_message->0))
    } else if note is Some {
        Some(Error::AlphaVantageNote(note->0))
    } else {
        None
    }
}

/// Fails with the message that the service sent in place of data, if it
/// sent one.
pub fn detect_common_helper_error(
    information: Option<String>,
    error_message: Option<String>,
    note: Option<String>,
) -> (r: Result<(), Error>)
    ensures
        sentinel(information, error_message, note) is Some ==> r == Err::<(), Error>(
            sentinel(information, error_message, note)->0,
        ),
        sentinel(information, error_message, note) is None ==> r is Ok,
{
    if let Some(information) = information {
        return Err(Error::AlphaVantageInformation(information));
    }
    if let Some(error_message) = error_message {
        return Err(Error::AlphaVantageErrorMessage(error_message));
    }
    if let Some(note) = note {
        return Err(Error::AlphaVantageNote(note));
    }
    Ok(())
}

/// A decoded answer of any shape: the three messages that the service may
/// send in place of data, and the data.
pub struct ErrorHolder<T> {
    pub information: Option<String>,
    pub error_message: Option<String>,
    pub note: Option<String>,
    pub data: Option<T>,
}

impl<T> ErrorHolder<T> {
    /// What the answer comes to: the first message that is present, as a
    /// failure; without a message the data, and a failure of its own where
    /// that is missing too.
    pub open spec fn outcome(self) -> Result<T, Error> {
        if sentinel(self.information, self.error_message, self.note) is Some {
            Err(sentinel(self.information, self.error_message, self.note)->0)
        } else if self.data is Some {
            Ok(self.data->0)
        } else {
            Err(Error::AlphaVantageInvalidData)
        }
    }

    /// Hands out the data, or the failure that stands in its place.
    pub fn handle_common_error(self) -> (r: Result<T, Error>)
        ensures
            r == self.outcome(),
    {
        if let Some(information) = self.information {
            return Err(Error::AlphaVantageInformation(information));
        }
        if let Some(error_message) = self.error_message {
            return Err(Error::AlphaVantageErrorMessage(error_message));
        }
        if let Some(note) = self.note {
            return Err(Error::AlphaVantageNote(note));
        }
        match self.data {
            Some(data) => Ok(data),
            None => Err(Error::AlphaVantageInvalidData),
        }
    }
}

/// An information is reported whatever else the answer holds: neither an
/// error message nor a note beside it changes the failure.
pub proof fn lemma_information_comes_first(
    information: String,
    error_message: Option<String>,
    note: Option<String>,
)
    ensures
        sentinel(Some(information), error_message, note) == Some(
            Error::AlphaVantageInformation(information),
        ),
{
}

/// An error message is reported whenever there is no information, with or
/// without a note beside it.
pub proof fn lemma_error_message_comes_before_note(error_message: String, note: Option<String>)
    ensures
        sentinel(None, Some(error_message), note) == Some(
            Error::AlphaVantageErrorMessage(error_message),
        ),
{
}

} // verus!
