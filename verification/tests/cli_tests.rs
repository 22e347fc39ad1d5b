use knn_ocr::cli::ArgsError;
use knn_ocr::cli::multiproc::Args as MultiprocArgs;
use knn_ocr::cli::ocr::Args as OcrArgs;
use knn_ocr::cli::server::Args as ServerArgs;
use knn_ocr::numbers::IntErrorKind;

fn argv(a: &[&str]) -> Vec<String> {
    a.iter().map(|s| s.to_string()).collect()
}

#[test]
fn ocr_defaults() {
    let a = OcrArgs::new(&argv(&["prog", "data"])).unwrap();
    assert_eq!(a.data_dir, "data");
    assert_eq!(a.k, 3);
    assert_eq!(a.n_test, -1);
}

#[test]
fn ocr_all_arguments() {
    let a = OcrArgs::new(&argv(&["prog", "d", "-5", "7"])).unwrap();
    assert_eq!(a.data_dir, "d");
    assert_eq!(a.n_test, -5);
    assert_eq!(a.k, 7);
}

#[test]
fn ocr_errors() {
    assert_eq!(OcrArgs::new(&argv(&["prog"])).err(), Some(ArgsError::ArgCount));
    assert_eq!(OcrArgs::new(&argv(&["prog", "d", "1", "2", "3"])).err(), Some(ArgsError::ArgCount));
    assert_eq!(OcrArgs::new(&argv(&["prog", "d", "x"])).err(), Some(ArgsError::BadNumber(IntErrorKind::InvalidDigit)));
    assert_eq!(OcrArgs::new(&argv(&["prog", "d", "1", "0"])).err(), Some(ArgsError::ZeroK));
    assert_eq!(OcrArgs::new(&argv(&["prog", "d", "1", "-2"])).err(), Some(ArgsError::BadNumber(IntErrorKind::InvalidDigit)));
    assert_eq!(OcrArgs::new(&argv(&["prog", "d", ""])).err(), Some(ArgsError::BadNumber(IntErrorKind::Empty)));
}

#[test]
fn multiproc_reads_k_and_process_count() {
    let a = MultiprocArgs::new(&argv(&["prog", "d"])).unwrap();
    assert_eq!((a.data_dir.as_str(), a.k, a.n_test, a.n_proc), ("d", 3, -1, 4));
    let a = MultiprocArgs::new(&argv(&["prog", "d", "10", "5"])).unwrap();
    assert_eq!((a.k, a.n_test, a.n_proc), (5, 10, 4));
    let a = MultiprocArgs::new(&argv(&["p", "d", "10", "7", "2"])).unwrap();
    assert_eq!((a.data_dir.as_str(), a.k, a.n_test, a.n_proc), ("d", 7, 10, 2));
    assert_eq!(
        MultiprocArgs::new(&argv(&["prog", "d", "10", "zzz", "2"])).err(),
        Some(ArgsError::BadNumber(IntErrorKind::InvalidDigit))
    );
    assert_eq!(MultiprocArgs::new(&argv(&["prog", "d", "10", "0", "2"])).err(), Some(ArgsError::ZeroK));
    assert_eq!(MultiprocArgs::new(&argv(&["prog", "d", "1", "2", "0"])).err(), Some(ArgsError::ZeroProcesses));
    assert_eq!(MultiprocArgs::new(&argv(&["prog", "d", "1", "2", "3", "4"])).err(), Some(ArgsError::ArgCount));
    assert_eq!(MultiprocArgs::new(&argv(&["prog", "d", "1", "0"])).err(), Some(ArgsError::ZeroK));
}

#[test]
fn server_arguments() {
    let a = ServerArgs::new(&argv(&["prog", "8080", "data", "index.html"])).unwrap();
    assert_eq!((a.port, a.data_dir.as_str(), a.index_path.as_str(), a.k), (8080, "data", "index.html", 3));
    let a = ServerArgs::new(&argv(&["prog", "1024", "data", "index.html", "9"])).unwrap();
    assert_eq!((a.port, a.k), (1024, 9));
    assert_eq!(ServerArgs::new(&argv(&["prog", "1023", "d", "i"])).err(), Some(ArgsError::ReservedPort));
    assert_eq!(ServerArgs::new(&argv(&["prog", "70000", "d", "i"])).err(), Some(ArgsError::BadNumber(IntErrorKind::PosOverflow)));
    assert_eq!(ServerArgs::new(&argv(&["prog", "8080", "d"])).err(), Some(ArgsError::ArgCount));
    assert_eq!(ServerArgs::new(&argv(&["prog", "8080", "d", "i", "0"])).err(), Some(ArgsError::ZeroK));
}

#[test]
fn error_messages() {
    assert_eq!(ArgsError::ArgCount.message("must be called with 1 ... 3 args"), "must be called with 1 ... 3 args");
    assert_eq!(ArgsError::ZeroK.message(""), "k must be positive");
    assert_eq!(ArgsError::ZeroProcesses.message(""), "n_proc must be positive");
    assert_eq!(ArgsError::ReservedPort.message(""), "port must be greater than 1023");
    assert_eq!(ArgsError::BadNumber(IntErrorKind::Empty).message(""), "".parse::<u8>().unwrap_err().to_string());
    assert_eq!(ArgsError::BadNumber(IntErrorKind::InvalidDigit).message(""), "x".parse::<u8>().unwrap_err().to_string());
    assert_eq!(ArgsError::BadNumber(IntErrorKind::PosOverflow).message(""), "300".parse::<u8>().unwrap_err().to_string());
    assert_eq!(ArgsError::BadNumber(IntErrorKind::NegOverflow).message(""), "-300".parse::<i8>().unwrap_err().to_string());
}

#[test]
fn per_program_messages() {
    assert_eq!(OcrArgs::error_message(ArgsError::ArgCount), "must be called with 1 ... 3 args");
    assert_eq!(MultiprocArgs::error_message(ArgsError::ArgCount), "must be called with 1 ... 4 args");
    assert_eq!(ServerArgs::error_message(ArgsError::ArgCount), "must be called with 3 ... 4 args");
    assert_eq!(ServerArgs::error_message(ArgsError::ReservedPort), "port must be greater than 1023");
    assert_eq!(OcrArgs::error_message(ArgsError::ZeroK), "k must be positive");
}
