use vstd::prelude::*;

verus! {

/// Health status of a component.
#[derive(Debug, PartialEq)]
pub enum Status {
    Okay,
    Degraded(String),
    Down(String),
    Unknown,
}

impl Status {
    /// True if this is [`Status::Okay`].
    #[verifier::allow_in_spec]
    pub fn is_ok(&self) -> bool
        returns
            self is Okay,
    {
        matches!(self, Status::Okay)
    }

    /// True if this is [`Status::Degraded`].
    #[verifier::allow_in_spec]
    pub fn is_degraded(&self) -> bool
        returns
            self is Degraded,
    {
        matches!(self, Status::Degraded(_))
    }

    /// True if this is [`Status::Down`].
    #[verifier::allow_in_spec]
    pub fn is_down(&self) -> bool
        returns
            self is Down,
    {
        matches!(self, Status::Down(_))
    }

    /// True if this is [`Status::Unknown`].
    #[verifier::allow_in_spec]
    pub fn is_unknown(&self) -> bool
        returns
            self is Unknown,
    {
        matches!(self, Status::Unknown)
    }

    /// Relative severity of the status, where a higher number is worse:
    /// `Okay` (0) < `Unknown` (1) < `Degraded` (2) < `Down` (3).
    #[verifier::allow_in_spec]
    pub fn severity(&self) -> u8
        returns
            match self {
                Status::Okay => 0u8,
                Status::Unknown => 1u8,
                Status::Degraded(_) => 2u8,
                Status::Down(_) => 3u8,
            },
    {
        match self {
            Status::Okay => 0,
            Status::Unknown => 1,
            Status::Degraded(_) => 2,
            Status::Down(_) => 3,
        }
    }
}

impl Status {
    /// The text of the status: `ok`, `degraded: <reason>`, `down: <reason>`
    /// or `unknown`.
    pub open spec fn text(&self) -> Seq<char> {
        match self {
            Status::Okay => "ok"@,
            Status::Degraded(msg) => "degraded: "@ + msg@,
            Status::Down(msg) => "down: "@ + msg@,
            Status::Unknown => "unknown"@,
        }
    }

    /// Renders the status as `ok`, `degraded: <reason>`, `down: <reason>`
    /// or `unknown`.
    pub fn to_string(&self) -> (r: String)
        ensures
            r@ == self.text(),
    {
        match self {
            Status::Okay => String::from_str("ok"),
            Status::Degraded(msg) => {
                let mut s = String::from_str("degraded: ");
                s.append(msg.as_str());
                s
            },
            Status::Down(msg) => {
                let mut s = String::from_str("down: ");
                s.append(msg.as_str());
                s
            },
            Status::Unknown => String::from_str("unknown"),
        }
    }
}

impl Clone for Status {
    fn clone(&self) -> (r: Self)
        ensures
            r == *self,
    {
        match self {
            Status::Okay => Status::Okay,
            Status::Degraded(msg) => Status::Degraded(msg.clone()),
            Status::Down(msg) => Status::Down(msg.clone()),
            Status::Unknown => Status::Unknown,
        }
    }
}

} // verus!
