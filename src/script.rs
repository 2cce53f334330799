//! The script that every surface's content runs first.
use vstd::prelude::*;

verus! {

/// Installs handlers that log uncaught errors and unhandled promise
/// rejections to the console.
pub const ERROR_HANDLER_SCRIPT: &'static str = "
    console.log('[init] installing global error handlers');

    // catch sync errors
    window.addEventListener('error', event => {
      console.error('window.onerror:', event.error?.message, event.error?.stack);
    });

    // catch promise rejections
    window.addEventListener('unhandledrejection', event => {
      console.error('onunhandledrejection:', event.reason, event.reason?.stack);
    });

    ";

/// Marks the page as running in a debug build.
pub const DEBUG_FLAG_SCRIPT: &'static str = "
        window.__TAURI_DEBUG_MODE__ = true;
        ";

/// The error-handler script, followed by the debug marker in a debug build.
pub fn get_error_handler_script(debug_mode: bool) -> (r: String)
    ensures
        r@ == ERROR_HANDLER_SCRIPT@ + (if debug_mode {
            DEBUG_FLAG_SCRIPT@
        } else {
            Seq::<char>::empty()
        }),
{
    let mut res = String::from_str(ERROR_HANDLER_SCRIPT);
    if debug_mode {
        res.append(DEBUG_FLAG_SCRIPT);
    } else {
        assert(res@ + Seq::<char>::empty() == res@);
    }
    res
}

} // verus!
