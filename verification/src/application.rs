use vstd::prelude::*;

verus! {

/// Why creating the application failed.
#[derive(Debug)]
pub enum ErrorApp {
    AppCreateError,
}

/// Window-placement configuration handed to the platform layer.
pub struct AppConfig<'b> {
    pub app_name: &'b str,
    pub x: i16,
    pub y: i16,
    pub width: u16,
    pub height: u16,
}

impl<'b> AppConfig<'b> {
    pub fn new(app_name: &'b str, x: i16, y: i16, width: u16, height: u16) -> (r: Self)
        ensures
            r == (AppConfig { app_name, x, y, width, height }),
    {
        Self { app_name, x, y, width, height }
    }
}

} // verus!
