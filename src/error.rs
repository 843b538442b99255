//! Errors of the route compiler.
use vstd::prelude::*;

verus! {

/// Why a build of the routing tree stopped.
#[derive(Debug, Clone, Copy, PartialEq, Eq, Structural)]
pub enum BuildError {
    /// A path does not lie under the declared root directory.
    MissingRoot,
    /// A segment path has no segment at all.
    EmptyRoute,
    /// Two endpoints have the same segments.
    DuplicateRoute,
    /// Two static files would be served under the same flat name.
    NameCollision,
}

} // verus!

verus! {

/// The most common HTML error codes.
#[derive(Debug, Clone, Copy, PartialEq, Eq, PartialOrd, Ord, Hash, Structural)]
pub enum HtmlError {
    Unauthorized,
    InvalidRequest,
    InvalidSession,
    InternalServerError,
}

/// An error as the server reports it: a status code, what went wrong and
/// where to send the user.
#[derive(Debug, Clone)]
pub struct Error {
    pub code: i16,
    pub info: Option<String>,
    pub redirect: Option<String>,
}

/// The status code of an error kind.
pub open spec fn status_code(e: HtmlError) -> i16 {
    match e {
        HtmlError::InvalidSession => 401,
        HtmlError::Unauthorized => 403,
        HtmlError::InvalidRequest => 400,
        HtmlError::InternalServerError => 500,
    }
}

/// The status code of an error kind that redirects.
pub open spec fn redirect_code(e: HtmlError) -> i16 {
    match e {
        HtmlError::Unauthorized => 401,
        HtmlError::InvalidSession => 403,
        HtmlError::InvalidRequest => 400,
        HtmlError::InternalServerError => 500,
    }
}

/// The default text of an error kind.
pub open spec fn default_info(e: HtmlError) -> Seq<char> {
    match e {
        HtmlError::InvalidSession => "Invalid credentials"@,
        HtmlError::Unauthorized => "Permission denied"@,
        HtmlError::InvalidRequest => "Invalid request"@,
        HtmlError::InternalServerError => "Internal server error"@,
    }
}

/// The text shown beside a status code on the error page.
pub open spec fn code_description(code: i16) -> Seq<char> {
    if code == 400 {
        "Invalid request; The request failed to contain or contained invalid payload. This shouldn't happen with normal use, so take your time to report this issue if you did not modify request parameters by hand.The server responded with the following information about the issue: "@
    } else if code == 401 {
        "Invalid credentials; The browser should redirect you in a second.... if it does,'t this is a bug! Please report this below: "@
    } else if code == 403 {
        "Permission denied; You were not allowed to perform this action. Unless you were trying to do something you are not allowed to, you should report this below: "@
    } else if code == 500 {
        "Internal server error, this error was automatically reported to our system. The server responded with the following information about the issue: "@
    } else {
        "Unknown error"@
    }
}

impl HtmlError {
    /// The error of this kind with its default text.
    pub fn default(self) -> (r: Error)
        ensures
            r.code == status_code(self),
            r.info matches Some(s) && s@ == default_info(self),
            r.redirect is None,
    {
        match self {
            HtmlError::InvalidSession => Error::new(401, "Invalid credentials", None),
            HtmlError::Unauthorized => Error::new(403, "Permission denied", None),
            HtmlError::InvalidRequest => Error::new(400, "Invalid request", None),
            HtmlError::InternalServerError => Error::new(500, "Internal server error", None),
        }
    }

    /// The error of this kind with the given text.
    pub fn new(self, info: &str) -> (r: Error)
        ensures
            r.code == status_code(self),
            r.info matches Some(s) && s@ == info@,
            r.redirect is None,
    {
        match self {
            Self::InvalidSession => Error::new(401, info, None),
            Self::Unauthorized => Error::new(403, info, None),
            Self::InvalidRequest => Error::new(400, info, None),
            Self::InternalServerError => Error::new(500, info, None),
        }
    }

    /// The error of this kind with the given text, sending the user to
    /// `redirect`.
    pub fn redirect(self, info: &str, redirect: &str) -> (r: Error)
        ensures
            r.code == redirect_code(self),
            r.info matches Some(s) && s@ == info@,
            r.redirect matches Some(s) && s@ == redirect@,
    {
        let target = String::from_str(redirect);
        match self {
            HtmlError::Unauthorized => Error::new(401, info, Some(target)),
            HtmlError::InvalidSession => Error::new(403, info, Some(target)),
            HtmlError::InvalidRequest => Error::new(400, info, Some(target)),
            HtmlError::InternalServerError => Error::new(500, info, Some(target)),
        }
    }
}

impl Error {
    pub fn new(code: i16, info: &str, redirect: Option<String>) -> (r: Self)
        ensures
            r.code == code,
            r.info matches Some(s) && s@ == info@,
            r.redirect == redirect,
    {
        Self { code, info: Some(String::from_str(info)), redirect }
    }

    /// The text shown for this error's status code.
    pub fn description(&self) -> (r: &'static str)
        ensures
            r@ == code_description(self.code),
    {
        if self.code == 400 {
            "Invalid request; The request failed to contain or contained invalid payload. This shouldn't happen with normal use, so take your time to report this issue if you did not modify request parameters by hand.The server responded with the following information about the issue: "
        } else if self.code == 401 {
            "Invalid credentials; The browser should redirect you in a second.... if it does,'t this is a bug! Please report this below: "
        } else if self.code == 403 {
            "Permission denied; You were not allowed to perform this action. Unless you were trying to do something you are not allowed to, you should report this below: "
        } else if self.code == 500 {
            "Internal server error, this error was automatically reported to our system. The server responded with the following information about the issue: "
        } else {
            "Unknown error"
        }
    }

    /// What went wrong, or `Unknown error` when the error does not say.
    pub fn info_text(&self) -> (r: String)
        ensures
            match self.info {
                Some(s) => r@ == s@,
                None => r@ == "Unknown error"@,
            },
    {
        match &self.info {
            Some(s) => s.clone(),
            None => String::from_str("Unknown error"),
        }
    }
}

/// A value of a form that does not have the type asked for.
#[derive(Debug)]
pub struct TypeError {
    info: String,
}

impl View for TypeError {
    type V = Seq<char>;

    closed spec fn view(&self) -> Seq<char> {
        self.info@
    }
}

impl TypeError {
    pub fn new(info: &str) -> (r: Self)
        ensures
            r@ == info@,
    {
        Self { info: String::from_str(info) }
    }

    /// The invalid-request error that this type error is reported as.
    pub fn to_error(&self) -> (r: Error)
        ensures
            r.code == 400,
            r.info matches Some(s) && s@ == self@,
            r.redirect is None,
    {
        HtmlError::InvalidRequest.new(self.info.as_str())
    }
}

} // verus!
