use jaali::{available_backends, gpu_available, parse_backend, Backend, BackendNameError};

#[test]
fn known_backend_names() {
    assert_eq!(parse_backend(Some("serial")).unwrap(), Backend::Serial);
    assert_eq!(parse_backend(Some("parallel")).unwrap(), Backend::ParallelCPU);
    assert_eq!(parse_backend(Some("rayon")).unwrap(), Backend::ParallelCPU);
}

#[test]
fn default_backend_is_parallel() {
    assert_eq!(parse_backend(None).unwrap(), Backend::ParallelCPU);
}

#[test]
fn gpu_name_is_refused_without_gpu_support() {
    assert!(matches!(parse_backend(Some("gpu")), Err(BackendNameError::GpuNotBuilt)));
}

#[test]
fn unknown_backend_name_is_reported() {
    match parse_backend(Some("cuda")) {
        Err(BackendNameError::Unknown(name)) => assert_eq!(name, "cuda"),
        other => panic!("unexpected {:?}", other),
    }
    match parse_backend(Some("Serial")) {
        Err(BackendNameError::Unknown(name)) => assert_eq!(name, "Serial"),
        other => panic!("unexpected {:?}", other),
    }
    assert!(matches!(parse_backend(Some("")), Err(BackendNameError::Unknown(_))));
    assert!(matches!(parse_backend(Some("serial ")), Err(BackendNameError::Unknown(_))));
}

#[test]
fn backends_of_this_build() {
    assert_eq!(available_backends(), vec!["serial", "parallel"]);
    assert!(!gpu_available());
}
