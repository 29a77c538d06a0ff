//! The notice that a job has ended.
use crate::text::{append, count_text, decimal};
use vstd::prelude::*;

verus! {

/// The text of the notice that a job has ended.
pub open spec fn completion_text(
    ok: nat,
    failed: nat,
    order_failed: bool,
    name_warning: bool,
) -> Seq<char> {
    "변환 성공 "@ + decimal(ok) + "개 · 실패 "@ + decimal(failed) + "개"@ + (if order_failed {
        "\n순서 정리에 실패했습니다. 프로그램 로그를 확인해 주세요."@
    } else {
        Seq::empty()
    }) + (if name_warning {
        "\n비영문 파일명 경고가 있습니다. 프로그램을 확인해 주세요."@
    } else {
        Seq::empty()
    })
}

/// The text of the notice that a job has ended: how many files were converted and how many were
/// not, and a line for each thing the user should look at.
pub fn completion_message(ok: usize, failed: usize, order_failed: bool, name_warning: bool) -> (r:
    String)
    ensures
        r@ == completion_text(ok as nat, failed as nat, order_failed, name_warning),
{
    let mut message = "변환 성공 ".to_owned();
    append(&mut message, count_text(ok).as_str());
    append(&mut message, "개 · 실패 ");
    append(&mut message, count_text(failed).as_str());
    append(&mut message, "개");
    if order_failed {
        append(&mut message, "\n순서 정리에 실패했습니다. 프로그램 로그를 확인해 주세요.");
    }
    if name_warning {
        append(&mut message, "\n비영문 파일명 경고가 있습니다. 프로그램을 확인해 주세요.");
    }
    assert(message@ =~= completion_text(ok as nat, failed as nat, order_failed, name_warning));
    message
}

/// A notice for the desktop: the registration that lets this program show it, and what it says.
pub struct Toast {
    pub app_id: String,
    pub registry_key: String,
    pub display_name: String,
    pub title: String,
    pub text: String,
}

/// The name under which the program shows its notices.
pub open spec fn app_id() -> Seq<char> {
    "WavConverter.Desktop"@
}

/// The notice to show for a message. Only a Windows desktop shows notices; elsewhere there is
/// nothing to do.
pub fn show_completion(message: &str, windows: bool) -> (r: Option<Toast>)
    ensures
        r is Some <==> windows,
        r matches Some(toast) ==> {
            &&& toast.app_id@ == app_id()
            &&& toast.registry_key@ == "Software\\Classes\\AppUserModelId\\"@ + app_id()
            &&& toast.display_name@ == "WAV 일괄 변환기"@
            &&& toast.title@ == "WAV 변환 작업 완료"@
            &&& toast.text@ == message@
        },
{
    if !windows {
        return None;
    }
    let id = "WavConverter.Desktop";
    let mut key = "Software\\Classes\\AppUserModelId\\".to_owned();
    append(&mut key, id);
    Some(
        Toast {
            app_id: id.to_owned(),
            registry_key: key,
            display_name: "WAV 일괄 변환기".to_owned(),
            title: "WAV 변환 작업 완료".to_owned(),
            text: message.to_owned(),
        },
    )
}

/// What is reported when the desktop refuses a notice.
pub fn notice_failure(error: &str) -> (r: String)
    ensures
        r@ == "Windows 알림 전송 실패: "@ + error@,
{
    let mut text = "Windows 알림 전송 실패: ".to_owned();
    append(&mut text, error);
    text
}

} // verus!
