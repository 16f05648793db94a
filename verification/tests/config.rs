use methyl_windows::Args;
use methyl_windows::Mode;

#[test]
fn args_holds_the_run_configuration() {
    let args = Args {
        treatment: String::from("treatment.bed.gz"),
        control: String::from("control.bed.gz"),
        lengths_chrom: String::from("genome.fa.fai"),
        window: 5000,
        mode: Mode::Diff,
    };
    assert_eq!(args.window, 5000);
    assert_eq!(args.mode, Mode::Diff);
    assert_ne!(args.treatment, args.control);
}

#[test]
fn modes_are_distinct() {
    assert_ne!(Mode::Diff, Mode::Ratio);
    let copy: Mode = Mode::Ratio;
    assert_eq!(copy, Mode::Ratio);
}
