use minisort::logview::{log_file_name, log_message};

#[test]
fn log_file_has_the_fixed_name() {
    assert_eq!(log_file_name(), "ms.log");
}

#[test]
fn missing_log_file_message_names_the_path() {
    let path = "/home/user/.config/ms/ms.log".to_string();
    let message = log_message(&path, None);
    assert_eq!(message, "No log file found: /home/user/.config/ms/ms.log");
}

#[test]
fn present_log_file_message_shows_location_and_contents() {
    let path = "/home/user/.config/ms/ms.log".to_string();
    let contents = "WARN Path 'nope' doesn`t exist\n".to_string();
    let message = log_message(&path, Some(&contents));
    assert_eq!(
        message,
        "Log location: /home/user/.config/ms/ms.log\nWARN Path 'nope' doesn`t exist\n"
    );
}
