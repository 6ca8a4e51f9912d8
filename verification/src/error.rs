use vstd::prelude::*;

verus! {

/// Why code cannot be generated.
#[derive(Debug)]
pub enum Error {
    /// A register without a size, where the device sets none either.
    RegisterSize(String),
    /// A cluster without a size, and why none can be computed from what it holds.
    ClusterSize(String, Box<Error>),
    /// What stopped the code of a single register from being generated.
    Register(String),
}

/// The mathematical model of an [`Error`].
pub ghost enum ErrorModel {
    RegisterSize(Seq<char>),
    ClusterSize(Seq<char>, Box<ErrorModel>),
    Register(Seq<char>),
}

/// The message of an error.
pub open spec fn error_message(e: ErrorModel) -> Seq<char> {
    match e {
        ErrorModel::RegisterSize(name) => "Register "@ + name + " has no `size` field"@,
        ErrorModel::ClusterSize(name, _) => "Cluster "@ + name
            + " has no determinable `size` field"@,
        ErrorModel::Register(text) => text,
    }
}

impl Error {
    pub open spec fn model(self) -> ErrorModel
        decreases self,
    {
        match self {
            Error::RegisterSize(name) => ErrorModel::RegisterSize(name@),
            Error::ClusterSize(name, cause) => ErrorModel::ClusterSize(
                name@,
                Box::new(cause.model()),
            ),
            Error::Register(text) => ErrorModel::Register(text@),
        }
    }


    /// What the error says.
    pub fn message(&self) -> (r: String)
        ensures
            r@ == error_message(self.model()),
    {
        match self {
            Error::RegisterSize(name) => "Register ".to_owned().concat(name.as_str()).concat(
                " has no `size` field",
            ),
            Error::ClusterSize(name, _) => "Cluster ".to_owned().concat(name.as_str()).concat(
                " has no determinable `size` field",
            ),
            Error::Register(text) => text.clone(),
        }
    }

    /// What the error was caused by.
    pub fn cause(&self) -> (r: Option<&Error>)
        ensures
            r is Some <==> self.model() is ClusterSize,
            r matches Some(e) ==> Box::new(e.model()) == self.model()->ClusterSize_1,
    {
        match self {
            Error::ClusterSize(_, cause) => Some(cause),
            _ => None,
        }
    }
}

impl Clone for Error {
    fn clone(&self) -> (r: Error)
        ensures
            r.model() == self.model(),
        decreases self,
    {
        match self {
            Error::RegisterSize(name) => Error::RegisterSize(name.clone()),
            Error::ClusterSize(name, cause) => Error::ClusterSize(
                name.clone(),
                Box::new((**cause).clone()),
            ),
            Error::Register(text) => Error::Register(text.clone()),
        }
    }
}

/// Errors name what has no size; what was wrong with a register alone is told as it is.
pub proof fn law_messages(name: Seq<char>, cause: ErrorModel)
    ensures
        error_message(ErrorModel::RegisterSize(name)) == "Register "@ + name
            + " has no `size` field"@,
        error_message(ErrorModel::ClusterSize(name, Box::new(cause))) == "Cluster "@ + name
            + " has no determinable `size` field"@,
        error_message(ErrorModel::Register(name)) == name,
{
}

} // verus!
