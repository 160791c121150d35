use std::path::PathBuf;

use orca_bot::vm::VMWrapper;

#[test]
fn settings_are_kept() {
    let args = vec!["a".to_string(), "b".to_string()];
    let w = VMWrapper::new(PathBuf::from("/tmp/frames"), PathBuf::from("/tmp/frames/audio.pcm"), &args, false);
    assert!(!w.native());
    assert_eq!(w.args(), &args);
    assert_eq!(w.screen_dir(), &PathBuf::from("/tmp/frames"));
    assert_eq!(w.audio_file(), &PathBuf::from("/tmp/frames/audio.pcm"));
}
