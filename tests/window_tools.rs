use scrap2_bot::template::Image;
use scrap2_bot::window::{cursor_in_window, geometry_value, parse_mouse_location, parse_window_id, size_off};

const XWININFO: &str = "\nxwininfo: Window id: 0x3a00007 \"M2006C3MNG\"\n\n  Absolute upper-left X:  100\n  Absolute upper-left Y:  52\n  Relative upper-left X:  0\n  Width: 405\n  Height: 880 pixels\n";

#[test]
fn geometry_values() {
    assert_eq!(geometry_value(XWININFO, "Absolute upper-left X"), Some(100));
    assert_eq!(geometry_value(XWININFO, "Absolute upper-left Y"), Some(52));
    assert_eq!(geometry_value(XWININFO, "Width"), Some(405));
    assert_eq!(geometry_value(XWININFO, "Height"), Some(880));
    assert_eq!(geometry_value(XWININFO, "Depth"), None);
    assert_eq!(geometry_value("Width: abc\nWidth: 5", "Width"), None);
    assert_eq!(geometry_value("Width 5", "Width"), None);
    assert_eq!(geometry_value("  Width: -12\r\n", "Width"), Some(-12));
}

#[test]
fn window_ids() {
    assert_eq!(parse_window_id(XWININFO), Some(0x3a00007));
    assert_eq!(parse_window_id("xwininfo: Window id: 12345 \"x\""), Some(12345));
    assert_eq!(parse_window_id("xwininfo: Window id: 0xZZ"), None);
    assert_eq!(parse_window_id("xwininfo: Window id:"), None);
    assert_eq!(parse_window_id("nothing here"), None);
}

#[test]
fn mouse_locations() {
    assert_eq!(parse_mouse_location("X=100\nY=200\nSCREEN=0\nWINDOW=123\n"), (100, 200));
    assert_eq!(parse_mouse_location("X=7\r\nY=-8\r\n"), (7, -8));
    assert_eq!(parse_mouse_location("X=abc\nY=3"), (0, 3));
    assert_eq!(parse_mouse_location("X=1\nX=2\n"), (2, 0));
    assert_eq!(parse_mouse_location(""), (0, 0));
}

#[test]
fn cursor_over_window() {
    assert!(cursor_in_window(5, 5, 0, 0, 10, 10));
    assert!(cursor_in_window(10, 10, 0, 0, 10, 10));
    assert!(!cursor_in_window(11, 5, 0, 0, 10, 10));
    assert!(!cursor_in_window(5, -1, 0, 0, 10, 10));
    assert!(cursor_in_window(i32::MAX, 0, i32::MAX - 1, 0, 10, 10));
}

#[test]
fn window_size_tolerance() {
    assert_eq!(size_off(400, 880, 405, 880), (false, false));
    assert_eq!(size_off(410, 874, 405, 880), (false, true));
    assert_eq!(size_off(411, 880, 405, 880), (true, false));
}

#[test]
fn pixels_inside_and_outside() {
    let img = Image { width: 2, height: 2, channels: 3, data: (0u8..12).collect() };
    assert_eq!(img.get_pixel_safe(1, 1), Some([9, 10, 11]));
    assert_eq!(img.get_pixel_safe(1, 0), Some([3, 4, 5]));
    assert_eq!(img.get_pixel_safe(2, 0), None);
    assert_eq!(img.get_pixel_safe(-1, 0), None);
}
