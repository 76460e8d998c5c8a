//! Application-level error type covering every subsystem that can fail.
use vstd::prelude::*;
use vstd::string::*;

verus! {

/// Top-level error enum covering every subsystem that can fail.
#[derive(Debug, Clone)]
pub enum GeodesicError {
    /// A configuration file could not be read or parsed.
    ConfigError(String),
    /// The render pipeline failed to initialise or submit a frame.
    RenderError(String),
    /// A surface parameterization produced a degenerate or invalid state.
    SurfaceError(String),
    /// Window creation or management failed.
    WindowError(String),
}

impl GeodesicError {
    /// Convenience constructor for [`GeodesicError::ConfigError`].
    pub fn config(msg: &str) -> (e: Self)
        ensures
            e matches GeodesicError::ConfigError(m) && m@ == msg@,
    {
        GeodesicError::ConfigError(msg.to_owned())
    }

    /// Convenience constructor for [`GeodesicError::RenderError`].
    pub fn render(msg: &str) -> (e: Self)
        ensures
            e matches GeodesicError::RenderError(m) && m@ == msg@,
    {
        GeodesicError::RenderError(msg.to_owned())
    }

    /// Convenience constructor for [`GeodesicError::SurfaceError`].
    pub fn surface(msg: &str) -> (e: Self)
        ensures
            e matches GeodesicError::SurfaceError(m) && m@ == msg@,
    {
        GeodesicError::SurfaceError(msg.to_owned())
    }

    /// Convenience constructor for [`GeodesicError::WindowError`].
    pub fn window(msg: &str) -> (e: Self)
        ensures
            e matches GeodesicError::WindowError(m) && m@ == msg@,
    {
        GeodesicError::WindowError(msg.to_owned())
    }

    /// The text shown for this error: a subsystem prefix and the message.
    pub open spec fn message_spec(&self) -> Seq<char> {
        match self {
            GeodesicError::ConfigError(m) => "Configuration error: "@ + m@,
            GeodesicError::RenderError(m) => "Render error: "@ + m@,
            GeodesicError::SurfaceError(m) => "Surface error: "@ + m@,
            GeodesicError::WindowError(m) => "Window error: "@ + m@,
        }
    }

    /// A human-readable description of the error.
    pub fn message(&self) -> (s: String)
        ensures
            s@ == self.message_spec(),
    {
        let (prefix, m) = match self {
            GeodesicError::ConfigError(m) => ("Configuration error: ", m),
            GeodesicError::RenderError(m) => ("Render error: ", m),
            GeodesicError::SurfaceError(m) => ("Surface error: ", m),
            GeodesicError::WindowError(m) => ("Window error: ", m),
        };
        let mut s = String::from_str(prefix);
        s.append(m.as_str());
        s
    }
}

} // verus!
